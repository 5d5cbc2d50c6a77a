//! Scrolling through a file's lines in a view of a given height.
use vstd::prelude::*;

verus! {

pub open spec fn sat_sub(a: int, b: int) -> int {
    if a >= b {
        a - b
    } else {
        0
    }
}

pub open spec fn sat_add(a: int, b: int) -> int {
    if a + b > u32::MAX {
        u32::MAX as int
    } else {
        a + b
    }
}

/// The first line shown of a file of `total` lines.
pub struct Scroll {
    pub offset: u32,
    pub total: u32,
}

impl Scroll {
    /// The last offset at which a view of `height` lines is still full.
    pub open spec fn max_offset(&self, height: u32) -> int {
        sat_sub(self.total as int, height as int)
    }

    /// At the top of a file of `total` lines.
    pub fn new(total: u32) -> (r: Scroll)
        ensures
            r.offset == 0,
            r.total == total,
    {
        Scroll { offset: 0, total }
    }

    /// Moves up by `by` lines, stopping at the first line.
    pub fn up(&mut self, by: u32)
        ensures
            final(self).offset == sat_sub(old(self).offset as int, by as int),
            final(self).total == old(self).total,
    {
        self.offset = if self.offset >= by {
            self.offset - by
        } else {
            0
        };
    }

    /// Moves down by `by` lines, stopping where the view of `height` lines
    /// shows the last line.
    pub fn down(&mut self, by: u32, height: u32)
        ensures
            final(self).offset == if sat_add(old(self).offset as int, by as int) <= old(
                self,
            ).max_offset(height) {
                sat_add(old(self).offset as int, by as int)
            } else {
                old(self).max_offset(height)
            },
            final(self).total == old(self).total,
    {
        let next = if self.offset > u32::MAX - by {
            u32::MAX
        } else {
            self.offset + by
        };
        let limit = if self.total >= height {
            self.total - height
        } else {
            0
        };
        self.offset = if next <= limit {
            next
        } else {
            limit
        };
    }

    /// The lines shown in a view of `height` lines, as a half-open range.
    pub fn visible(&self, height: u32) -> (r: (u32, u32))
        ensures
            r.0 == self.offset,
            r.1 == if sat_add(self.offset as int, height as int) <= self.total {
                sat_add(self.offset as int, height as int)
            } else {
                self.total as int
            },
    {
        let end = if self.offset > u32::MAX - height {
            u32::MAX
        } else {
            self.offset + height
        };
        (self.offset, if end <= self.total {
            end
        } else {
            self.total
        })
    }
}

} // verus!
