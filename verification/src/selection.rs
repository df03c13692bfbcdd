use vstd::prelude::*;

verus! {

/// The cursor into the display list: an optional highlighted position plus
/// the scroll offset of the visible window.
#[derive(Debug, Clone)]
pub struct SelectionState {
    pub selected: Option<usize>,
    pub offset: usize,
}

impl SelectionState {
    /// The currently highlighted position, if any.
    pub fn selected(&self) -> (r: Option<usize>)
        ensures
            r == self.selected,
    {
        self.selected
    }

    /// Highlight the given position (or nothing), keeping the scroll offset.
    pub fn select(&mut self, index: Option<usize>)
        ensures
            final(self).selected == index,
            final(self).offset == old(self).offset,
    {
        self.selected = index;
    }

    /// The scroll offset of the visible window.
    pub fn offset(&self) -> (r: usize)
        ensures
            r == self.offset,
    {
        self.offset
    }

    /// Move the visible window, keeping the highlight.
    pub fn set_offset(&mut self, offset: usize)
        ensures
            final(self).offset == offset,
            final(self).selected == old(self).selected,
    {
        self.offset = offset;
    }
}

impl Default for SelectionState {
    /// Nothing highlighted, window at the top.
    fn default() -> (s: SelectionState)
        ensures
            s.selected is None,
            s.offset == 0,
    {
        SelectionState { selected: None, offset: 0 }
    }
}

} // verus!
