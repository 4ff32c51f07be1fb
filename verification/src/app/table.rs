use vstd::prelude::*;

verus! {

/// A rectangle of terminal cells, placed by its top-left corner.
#[derive(Clone, Copy, Debug, Default, PartialEq, Eq, Structural)]
pub struct Area {
    pub x: u16,
    pub y: u16,
    pub width: u16,
    pub height: u16,
}

/// `a + b`, or the largest `u16` where that does not fit.
pub open spec fn sat_add_u16(a: u16, b: u16) -> u16 {
    if a + b > u16::MAX {
        u16::MAX
    } else {
        (a + b) as u16
    }
}

impl Area {
    pub open spec fn spec_right(self) -> u16 {
        sat_add_u16(self.x, self.width)
    }

    pub open spec fn spec_bottom(self) -> u16 {
        sat_add_u16(self.y, self.height)
    }

    /// The first column of the area.
    pub fn left(&self) -> (r: u16)
        ensures
            r == self.x,
    {
        self.x
    }

    /// The column just past the area, saturating at the edge of the `u16` range.
    pub fn right(&self) -> (r: u16)
        ensures
            r == self.spec_right(),
    {
        self.x.saturating_add(self.width)
    }

    /// The first row of the area.
    pub fn top(&self) -> (r: u16)
        ensures
            r == self.y,
    {
        self.y
    }

    /// The row just past the area, saturating at the edge of the `u16` range.
    pub fn bottom(&self) -> (r: u16)
        ensures
            r == self.spec_bottom(),
    {
        self.y.saturating_add(self.height)
    }
}

/// What a table remembers between frames: the selected row and the first row
/// shown.
#[derive(Clone, Copy, Debug, Default, PartialEq, Eq, Structural)]
pub struct TableState {
    selected: Option<usize>,
    offset: usize,
}

/// `i - 1`, or 0 where that would go below 0.
pub open spec fn sat_dec(i: usize) -> usize {
    if i == 0 {
        0
    } else {
        (i - 1) as usize
    }
}

/// `i + 1`, or the largest `usize` where that does not fit.
pub open spec fn sat_inc(i: usize) -> usize {
    if i == usize::MAX {
        usize::MAX
    } else {
        (i + 1) as usize
    }
}

impl TableState {
    pub closed spec fn spec_selected(self) -> Option<usize> {
        self.selected
    }

    pub closed spec fn spec_offset(self) -> usize {
        self.offset
    }

    /// Nothing selected, shown from the first row.
    pub closed spec fn initial() -> TableState {
        TableState { selected: None, offset: 0 }
    }

    /// The state after selecting a row, or none: selecting none also
    /// scrolls back to the top.
    pub closed spec fn selecting(self, index: Option<usize>) -> TableState {
        TableState { selected: index, offset: if index is None { 0 } else { self.offset } }
    }

    pub broadcast proof fn lemma_selecting(self, index: Option<usize>)
        ensures
            #[trigger] self.selecting(index).spec_selected() == index,
            self.selecting(index).spec_offset() == if index is None {
                0
            } else {
                self.spec_offset()
            },
            TableState::initial().spec_selected() is None,
            TableState::initial().spec_offset() == 0,
    {
    }

    /// Selecting a row after selecting another is selecting the second.
    pub broadcast proof fn lemma_selecting_twice(self, a: usize, b: Option<usize>)
        ensures
            #[trigger] self.selecting(Some(a)).selecting(b) == self.selecting(b),
    {
    }

    /// Nothing selected, shown from the first row.
    pub fn new() -> (r: TableState)
        ensures
            r == TableState::initial(),
    {
        TableState { selected: None, offset: 0 }
    }

    pub fn selected(&self) -> (r: Option<usize>)
        ensures
            r == self.spec_selected(),
    {
        self.selected
    }

    pub fn offset(&self) -> (r: usize)
        ensures
            r == self.spec_offset(),
    {
        self.offset
    }

    /// Selects a row, or none; selecting none also scrolls back to the top.
    pub fn select(&mut self, index: Option<usize>)
        ensures
            *final(self) == old(self).selecting(index),
    {
        self.selected = index;
        if index.is_none() {
            self.offset = 0;
        }
    }

    /// Selects the row before the selected one (staying on the first), or
    /// the last possible row when none is selected.
    pub fn select_previous(&mut self)
        ensures
            *final(self) == old(self).selecting(
                Some(
                    match old(self).spec_selected() {
                        None => usize::MAX,
                        Some(i) => sat_dec(i),
                    },
                ),
            ),
    {
        let previous = match self.selected {
            None => usize::MAX,
            Some(i) => i.saturating_sub(1),
        };
        self.select(Some(previous));
    }

    /// Selects the first row.
    pub fn select_first(&mut self)
        ensures
            *final(self) == old(self).selecting(Some(0usize)),
    {
        self.select(Some(0));
    }

    /// Scrolls so that the table is shown from a given row.
    pub fn set_offset(&mut self, offset: usize)
        ensures
            final(self).spec_offset() == offset,
            final(self).spec_selected() == old(self).spec_selected(),
    {
        self.offset = offset;
    }
}

} // verus!
