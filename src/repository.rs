//! The tracked files: one offset index and one line cache per file name,
//! created, extended and dropped as change events arrive, and queried by
//! name for the display.
use vstd::prelude::*;

use crate::cache::{
    lines_state, run_len, run_values, LineCache, CACHE_MAX_CAPACITY,
};
use crate::index::{
    appended, consistency_of, sat_u32, Error, IndexConsistency, LineIndexReader,
};
use crate::lines::{deep, line_starts};
use crate::lru::{detach, has_key, Entry};
use crate::monitor::EventKind;

verus! {

/// A tracked file: its name, offsets, cached lines and time of last
/// change (seconds since the Unix epoch).
pub type EntryView = (Seq<char>, Seq<u64>, Seq<Entry>, i64);

pub struct FileEntry {
    name: String,
    reader: LineIndexReader,
    cache: LineCache,
    updated: i64,
}

impl FileEntry {
    pub closed spec fn view(&self) -> EntryView {
        (self.name@, self.reader@, self.cache@, self.updated)
    }

    pub closed spec fn wf(&self) -> bool {
        &&& self.reader.wf()
        &&& self.cache.wf()
        &&& self.cache.cap() == CACHE_MAX_CAPACITY
    }
}

/// What the file list shows of a tracked file.
#[derive(Debug, Clone, PartialEq, Eq)]
pub struct FileInfo {
    pub name: String,
    /// Seconds since the Unix epoch.
    pub last_update: i64,
    pub number_of_lines: u32,
}

pub open spec fn names_unique(s: Seq<EntryView>) -> bool {
    forall|i: int, j: int| 0 <= i < j < s.len() ==> s[i].0 != s[j].0
}

pub open spec fn tracks(s: Seq<EntryView>, name: Seq<char>) -> bool {
    exists|i: int| 0 <= i < s.len() && s[i].0 == name
}

/// Where `name` stands in `s`, when it is tracked.
pub open spec fn slot(s: Seq<EntryView>, name: Seq<char>) -> int {
    choose|i: int| 0 <= i < s.len() && s[i].0 == name
}

/// A freshly indexed file.
pub open spec fn fresh(name: Seq<char>, content: Seq<u8>, now: i64) -> EntryView {
    (name, line_starts(content), Seq::<Entry>::empty(), now)
}

/// `s` after the file `name` was created with `content`: a new entry,
/// replacing any earlier one of that name.
pub open spec fn after_created(s: Seq<EntryView>, name: Seq<char>, content: Seq<u8>, now: i64) -> Seq<
    EntryView,
> {
    if tracks(s, name) {
        s.update(slot(s, name), fresh(name, content, now))
    } else {
        s.push(fresh(name, content, now))
    }
}

/// `s` after the file `name` was removed.
pub open spec fn after_removed(s: Seq<EntryView>, name: Seq<char>) -> Seq<EntryView> {
    if tracks(s, name) {
        s.remove(slot(s, name))
    } else {
        s
    }
}

/// The cache of a file whose index of `n` lines was just extended: the
/// formerly last line may have been open and grown since it was cached, so
/// its content is dropped.
pub open spec fn drop_last_line(c: Seq<Entry>, n: int) -> Seq<Entry> {
    if 1 <= n <= u32::MAX as int + 1 {
        detach(c, (n - 1) as u32)
    } else {
        c
    }
}

/// An entry after an update of its index against `content`: extended,
/// stamped and rid of the cached content of its formerly last line when the
/// index was consistent, unchanged otherwise.
pub open spec fn after_update(e: EntryView, content: Seq<u8>, now: i64) -> EntryView {
    match consistency_of(e.1, content) {
        IndexConsistency::Consistent => (
            e.0,
            e.1 + appended(e.1, content),
            drop_last_line(e.2, e.1.len() as int),
            now,
        ),
        IndexConsistency::Inconsistent(_) => e,
    }
}

/// What an update of entry `e` against `content` returns.
pub open spec fn update_result(e: EntryView, content: Seq<u8>) -> Result<u32, Error> {
    match consistency_of(e.1, content) {
        IndexConsistency::Consistent => Ok(sat_u32(appended(e.1, content).len() as int)),
        IndexConsistency::Inconsistent(k) => Err(Error::InconsistentIndex(k)),
    }
}

/// `s` after the file `name` was modified to hold `content`.
pub open spec fn after_modified(s: Seq<EntryView>, name: Seq<char>, content: Seq<u8>, now: i64) -> Seq<
    EntryView,
> {
    if tracks(s, name) {
        s.update(slot(s, name), after_update(s[slot(s, name)], content, now))
    } else {
        s
    }
}

/// `s` after an event of kind `kind` on `name`; `content` is the file as
/// read for it, `None` where it could not be read.
pub open spec fn after_event(
    s: Seq<EntryView>,
    kind: EventKind,
    name: Seq<char>,
    content: Option<Seq<u8>>,
    now: i64,
) -> Seq<EntryView> {
    match kind {
        EventKind::Created => match content {
            Some(c) => after_created(s, name, c, now),
            None => s,
        },
        EventKind::Modified => match content {
            Some(c) => after_modified(s, name, c, now),
            None => s,
        },
        EventKind::Removed => after_removed(s, name),
    }
}

proof fn lemma_slot(s: Seq<EntryView>, i: int)
    requires
        names_unique(s),
        0 <= i < s.len(),
    ensures
        tracks(s, s[i].0),
        slot(s, s[i].0) == i,
{
    assert(tracks(s, s[i].0));
}

pub struct Repository {
    entries: Vec<FileEntry>,
}

impl Repository {
    pub closed spec fn view(&self) -> Seq<EntryView> {
        self.entries@.map_values(|e: FileEntry| e@)
    }

    pub closed spec fn wf(&self) -> bool {
        &&& names_unique(self@)
        &&& forall|i: int| 0 <= i < self.entries@.len() ==> (#[trigger] self.entries@[i]).wf()
    }

    /// No tracked files.
    pub fn new() -> (r: Repository)
        ensures
            r.wf(),
            r@ == Seq::<EntryView>::empty(),
    {
        let r = Repository { entries: Vec::new() };
        assert(r@ =~= Seq::<EntryView>::empty());
        r
    }

    fn position(&self, name: &String) -> (r: Option<usize>)
        requires
            self.wf(),
        ensures
            match r {
                Some(i) => i < self@.len() && tracks(self@, name@) && slot(self@, name@) == i,
                None => !tracks(self@, name@),
            },
    {
        let mut i: usize = 0;
        while i < self.entries.len()
            invariant
                self.wf(),
                i <= self@.len(),
                self@.len() == self.entries@.len(),
                forall|j: int| 0 <= j < i ==> self@[j].0 != name@,
            decreases self.entries.len() - i,
        {
            if self.entries[i].name == *name {
                assert(self@[i as int].0 == self.entries@[i as int].name@);
                proof {
                    lemma_slot(self@, i as int);
                }
                return Some(i);
            }
            assert(self@[i as int].0 == self.entries@[i as int].name@);
            i = i + 1;
        }
        None
    }

    /// Puts `e` at position `i`, in place of the entry there.
    fn replace(&mut self, i: usize, e: FileEntry)
        requires
            old(self).wf(),
            i < old(self)@.len(),
            e.wf(),
            e@.0 == old(self)@[i as int].0,
        ensures
            final(self).wf(),
            final(self)@ == old(self)@.update(i as int, e@),
    {
        let ghost s = self@;
        let ghost v = e@;
        let _ = self.entries.remove(i);
        self.entries.insert(i, e);
        assert(self@ =~= s.update(i as int, v));
        assert forall|a: int, b: int| 0 <= a < b < self@.len() implies self@[a].0
            != self@[b].0 by {
            assert(self@[a].0 == s[a].0);
            assert(self@[b].0 == s[b].0);
        }
        assert forall|a: int| 0 <= a < self.entries@.len() implies (
        #[trigger] self.entries@[a]).wf() by {
            if a != i {
                assert(self.entries@[a] == old(self).entries@[a]);
            }
        }
    }

    /// The file `name` was created with `content`: index it, replacing any
    /// entry of that name.
    pub fn created(&mut self, name: String, content: &[u8], now: i64)
        requires
            old(self).wf(),
        ensures
            final(self).wf(),
            final(self)@ == after_created(old(self)@, name@, content@, now),
    {
        let e = FileEntry {
            name: name.clone(),
            reader: LineIndexReader::index(content),
            cache: LineCache::new(),
            updated: now,
        };
        assert(e@ == fresh(name@, content@, now));
        match self.position(&name) {
            Some(i) => {
                self.replace(i, e);
            },
            None => {
                let ghost s = self@;
                let ghost v = e@;
                self.entries.push(e);
                assert(self@ =~= s.push(v));
                assert forall|a: int, b: int| 0 <= a < b < self@.len() implies self@[a].0
                    != self@[b].0 by {
                    assert(self@[a].0 == s[a].0);
                    if b < s.len() {
                        assert(self@[b].0 == s[b].0);
                    }
                }
                assert forall|a: int| 0 <= a < self.entries@.len() implies (
                #[trigger] self.entries@[a]).wf() by {
                    if a < s.len() {
                        assert(self.entries@[a] == old(self).entries@[a]);
                    }
                }
            },
        }
    }

    /// The file `name` was modified and now holds `content`: extend its
    /// index and stamp it with `now`. `None` when the file is not tracked;
    /// an index that no longer matches the file is left as it was.
    pub fn modified(&mut self, name: &String, content: &[u8], now: i64) -> (r: Option<
        Result<u32, Error>,
    >)
        requires
            old(self).wf(),
        ensures
            final(self).wf(),
            final(self)@ == after_modified(old(self)@, name@, content@, now),
            match r {
                Some(res) => tracks(old(self)@, name@) && res == update_result(
                    old(self)@[slot(old(self)@, name@)],
                    content@,
                ),
                None => !tracks(old(self)@, name@),
            },
    {
        match self.position(name) {
            None => None,
            Some(i) => {
                let ghost s = self@;
                let mut e = self.entries.remove(i);
                assert(e@ == s[i as int]);
                assert(e.wf()) by {
                    assert(e == old(self).entries@[i as int]);
                }
                let n = e.reader.count();
                let res = e.reader.update(content);
                if res.is_ok() {
                    e.updated = now;
                    if n >= 1 && n - 1 <= u32::MAX as usize {
                        e.cache.invalidate((n - 1) as u32);
                    }
                }
                let ghost v = e@;
                self.entries.insert(i, e);
                assert(self@ =~= s.update(i as int, v));
                assert forall|a: int, b: int| 0 <= a < b < self@.len() implies self@[a].0
                    != self@[b].0 by {
                    assert(self@[a].0 == s[a].0);
                    assert(self@[b].0 == s[b].0);
                }
                assert forall|a: int| 0 <= a < self.entries@.len() implies (
                #[trigger] self.entries@[a]).wf() by {
                    if a != i {
                        assert(self.entries@[a] == old(self).entries@[a]);
                    }
                }
                Some(res)
            },
        }
    }

    /// The file `name` was removed: drop its index and cache. Returns
    /// whether it was tracked.
    pub fn removed(&mut self, name: &String) -> (r: bool)
        requires
            old(self).wf(),
        ensures
            final(self).wf(),
            final(self)@ == after_removed(old(self)@, name@),
            r == tracks(old(self)@, name@),
    {
        match self.position(name) {
            None => false,
            Some(i) => {
                let ghost s = self@;
                let _ = self.entries.remove(i);
                assert(self@ =~= s.remove(i as int));
                assert forall|a: int, b: int| 0 <= a < b < self@.len() implies self@[a].0
                    != self@[b].0 by {
                    assert(self@[a].0 == if a < i { s[a].0 } else { s[a + 1].0 });
                    assert(self@[b].0 == if b < i { s[b].0 } else { s[b + 1].0 });
                }
                assert forall|a: int| 0 <= a < self.entries@.len() implies (
                #[trigger] self.entries@[a]).wf() by {
                    if a < i {
                        assert(self.entries@[a] == old(self).entries@[a]);
                    } else {
                        assert(self.entries@[a] == old(self).entries@[a + 1]);
                    }
                }
                true
            },
        }
    }

    /// Applies an event on the file `name`. `content` is the file as read
    /// for a creation or a modification, `None` when it could not be read,
    /// in which case nothing changes.
    pub fn handle_event(
        &mut self,
        kind: EventKind,
        name: String,
        content: Option<&[u8]>,
        now: i64,
    )
        requires
            old(self).wf(),
        ensures
            final(self).wf(),
            final(self)@ == after_event(
                old(self)@,
                kind,
                name@,
                match content {
                    Some(c) => Some(c@),
                    None => None::<Seq<u8>>,
                },
                now,
            ),
    {
        match kind {
            EventKind::Created => {
                if let Some(c) = content {
                    self.created(name, c, now);
                }
            },
            EventKind::Modified => {
                if let Some(c) = content {
                    let _ = self.modified(&name, c, now);
                }
            },
            EventKind::Removed => {
                let _ = self.removed(&name);
            },
        }
    }

    /// Number of tracked files.
    pub fn len(&self) -> (r: usize)
        ensures
            r == self@.len(),
    {
        self.entries.len()
    }

    /// Name, last change and line count of every tracked file.
    pub fn list(&self) -> (r: Vec<FileInfo>)
        requires
            self.wf(),
        ensures
            r@.len() == self@.len(),
            forall|i: int|
                0 <= i < r@.len() ==> {
                    &&& (#[trigger] r@[i]).name@ == self@[i].0
                    &&& r@[i].last_update == self@[i].3
                    &&& r@[i].number_of_lines == sat_u32(self@[i].1.len() as int)
                },
    {
        let mut out: Vec<FileInfo> = Vec::new();
        let mut i: usize = 0;
        while i < self.entries.len()
            invariant
                i <= self@.len(),
                self@.len() == self.entries@.len(),
                out@.len() == i,
                forall|j: int|
                    0 <= j < i ==> {
                        &&& (#[trigger] out@[j]).name@ == self@[j].0
                        &&& out@[j].last_update == self@[j].3
                        &&& out@[j].number_of_lines == sat_u32(self@[j].1.len() as int)
                    },
            decreases self.entries.len() - i,
        {
            let e = &self.entries[i];
            assert(self@[i as int] == e@);
            out.push(
                FileInfo {
                    name: e.name.clone(),
                    last_update: e.updated,
                    number_of_lines: e.reader.len(),
                },
            );
            i = i + 1;
        }
        out
    }

    /// Number of lines of `name`, 0 when it is not tracked.
    pub fn total(&self, name: &String) -> (r: u32)
        requires
            self.wf(),
        ensures
            r == if tracks(self@, name@) {
                sat_u32(self@[slot(self@, name@)].1.len() as int)
            } else {
                0
            },
    {
        match self.position(name) {
            None => 0,
            Some(i) => {
                assert(self@[i as int] == self.entries@[i as int]@);
                self.entries[i].reader.len()
            },
        }
    }

    /// The cached lines of `name` from `from`, in a row, up to `to`, and
    /// whether some line of the range was missing, so that a fetch is due.
    /// Reads nothing.
    pub fn lines(&mut self, name: &String, from: u32, to: u32) -> (r: (Vec<Vec<u8>>, bool))
        requires
            old(self).wf(),
        ensures
            final(self).wf(),
            final(self)@.len() == old(self)@.len(),
            forall|i: int|
                0 <= i < old(self)@.len() ==> (#[trigger] final(self)@[i]).0 == old(self)@[i].0
                    && final(self)@[i].1 == old(self)@[i].1 && final(self)@[i].3 == old(
                    self,
                )@[i].3,
            !tracks(old(self)@, name@) ==> r.0@.len() == 0 && !r.1 && final(self)@ == old(self)@,
            tracks(old(self)@, name@) ==> {
                let c = old(self)@[slot(old(self)@, name@)].2;
                let h = run_len(c, from as int, to as int);
                &&& deep(r.0@) == run_values(c, from as int, h as int)
                &&& r.1 == (from + h < to)
            },
    {
        match self.position(name) {
            None => (Vec::new(), false),
            Some(i) => {
                let ghost s = self@;
                let mut e = self.entries.remove(i);
                assert(e.wf()) by {
                    assert(e == old(self).entries@[i as int]);
                }
                let ghost c = e.cache@;
                assert(c == s[i as int].2);
                let opts = e.cache.lines_opt(from, to);
                let mut out: Vec<Vec<u8>> = Vec::new();
                let mut j: usize = 0;
                let ghost n = opts@.len();
                proof {
                    assert(run_len(c, from as int, to as int) == 0 + run_len(
                        c,
                        from as int,
                        to as int,
                    ));
                }
                while j < opts.len() && opts[j].is_some()
                    invariant
                        j <= opts@.len(),
                        n == opts@.len(),
                        n == if from < to {
                            to - from
                        } else {
                            0
                        },
                        forall|k: int|
                            0 <= k < opts@.len() ==> match #[trigger] opts@[k] {
                                Some(v) => has_key(c, (from + k) as u32) && v@
                                    == crate::cache::value_at(c, (from + k) as u32),
                                None => !has_key(c, (from + k) as u32),
                            },
                        run_len(c, from as int, to as int) == j + run_len(
                            c,
                            from + j,
                            to as int,
                        ),
                        deep(out@) == run_values(c, from as int, j as int),
                    decreases opts.len() - j,
                {
                    match &opts[j] {
                        Some(v) => {
                            let ghost before = out@;
                            let line = v.clone();
                            assert(line@ =~= v@);
                            out.push(line);
                            assert(deep(out@) =~= deep(before).push(v@));
                            assert(deep(out@) =~= run_values(c, from as int, j + 1));
                        },
                        None => {},
                    }
                    j = j + 1;
                }
                let missing = j < opts.len();
                let ghost v = e@;
                self.entries.insert(i, e);
                assert(self@ =~= s.update(i as int, v));
                assert forall|a: int, b: int| 0 <= a < b < self@.len() implies self@[a].0
                    != self@[b].0 by {
                    assert(self@[a].0 == s[a].0);
                    assert(self@[b].0 == s[b].0);
                }
                assert forall|a: int| 0 <= a < self.entries@.len() implies (
                #[trigger] self.entries@[a]).wf() by {
                    if a != i {
                        assert(self.entries@[a] == old(self).entries@[a]);
                    }
                }
                (out, missing)
            },
        }
    }

    /// Fetches lines `from..to` of `name`, whose file holds `content`, into
    /// its cache, as a read of the cache would.
    pub fn fetch(&mut self, name: &String, content: &[u8], from: u32, to: u32)
        requires
            old(self).wf(),
        ensures
            final(self).wf(),
            !tracks(old(self)@, name@) ==> final(self)@ == old(self)@,
            tracks(old(self)@, name@) ==> {
                let i = slot(old(self)@, name@);
                let e = old(self)@[i];
                final(self)@ == old(self)@.update(
                    i,
                    (
                        e.0,
                        e.1,
                        lines_state(e.2, CACHE_MAX_CAPACITY as int, e.1, content@, from, to),
                        e.3,
                    ),
                )
            },
    {
        match self.position(name) {
            None => {},
            Some(i) => {
                let ghost s = self@;
                let mut e = self.entries.remove(i);
                assert(e.wf()) by {
                    assert(e == old(self).entries@[i as int]);
                }
                let _ = e.cache.lines(&e.reader, content, from, to);
                let ghost v = e@;
                self.entries.insert(i, e);
                assert(self@ =~= s.update(i as int, v));
                assert forall|a: int, b: int| 0 <= a < b < self@.len() implies self@[a].0
                    != self@[b].0 by {
                    assert(self@[a].0 == s[a].0);
                    assert(self@[b].0 == s[b].0);
                }
                assert forall|a: int| 0 <= a < self.entries@.len() implies (
                #[trigger] self.entries@[a]).wf() by {
                    if a != i {
                        assert(self.entries@[a] == old(self).entries@[a]);
                    }
                }
            },
        }
    }
}

} // verus!
