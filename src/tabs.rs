//! The tabs of open files and which one is selected.
use vstd::prelude::*;

verus! {

pub struct FileTabsState {
    tabs: Vec<String>,
    selected: usize,
}

impl FileTabsState {
    pub closed spec fn titles(&self) -> Seq<Seq<char>> {
        self.tabs@.map_values(|t: String| t@)
    }

    pub closed spec fn selected_spec(&self) -> int {
        self.selected as int
    }

    pub closed spec fn wf(&self) -> bool {
        self.selected < self.tabs@.len()
    }

    /// Tabs with the given titles, the first one selected.
    pub fn new(tabs: Vec<String>) -> (r: FileTabsState)
        requires
            tabs@.len() > 0,
        ensures
            r.wf(),
            r.titles() == tabs@.map_values(|t: String| t@),
            r.selected_spec() == 0,
    {
        FileTabsState { tabs, selected: 0 }
    }

    pub fn selected(&self) -> (r: usize)
        ensures
            r == self.selected_spec(),
    {
        self.selected
    }

    pub fn len(&self) -> (r: usize)
        ensures
            r == self.titles().len(),
    {
        self.tabs.len()
    }

    /// Selects tab `selected`.
    pub fn select(&mut self, selected: usize)
        requires
            selected < old(self).titles().len(),
        ensures
            final(self).wf(),
            final(self).selected_spec() == selected,
            final(self).titles() == old(self).titles(),
    {
        self.selected = selected;
    }
}

} // verus!
