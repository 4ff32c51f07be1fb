use crate::app::table::{sat_dec, sat_inc, Area, TableState};
use crate::fs::entry::FsEntry;
use crate::fs::path::FsPath;
use vstd::prelude::*;
use vstd::multiset::Multiset;
use vstd::multiset::group_multiset_axioms;
use vstd::seq_lib::{group_to_multiset_ensures, to_multiset_build, to_multiset_insert};

verus! {

broadcast use TableState::lemma_selecting;

/// A row of the tree table: the way up, or an entry of the directory shown.
#[derive(Debug, PartialEq, Eq)]
pub enum TreeRow {
    Parent,
    Entry(FsEntry),
}

/// The bytes an entry counts for: its size, or nothing while unknown.
pub open spec fn size_of(e: FsEntry) -> nat {
    match e.spec_size() {
        Some(s) => s as nat,
        None => 0,
    }
}

/// The bytes a list of entries counts for.
pub open spec fn size_sum(s: Seq<FsEntry>) -> nat
    decreases s.len(),
{
    if s.len() == 0 {
        0
    } else {
        size_sum(s.drop_last()) + size_of(s.last())
    }
}

/// The key entries are ordered by: an unknown size comes below every size.
pub open spec fn size_key(e: FsEntry) -> int {
    match e.spec_size() {
        Some(s) => s as int,
        None => -1,
    }
}

/// Largest first.
pub open spec fn sorted_by_size(s: Seq<FsEntry>) -> bool {
    forall|i: int, j: int| 0 <= i < j < s.len() ==> size_key(#[trigger] s[i]) >= size_key(#[trigger] s[j])
}

/// The rows of a table: the way up first, entries after it.
pub open spec fn rows_ok(rows: Seq<TreeRow>) -> bool {
    &&& rows.len() >= 1
    &&& rows[0] is Parent
    &&& forall|i: int| 1 <= i < rows.len() ==> #[trigger] rows[i] is Entry
}

/// The entries behind the rows after the first.
pub open spec fn entries_of(rows: Seq<TreeRow>) -> Seq<FsEntry> {
    rows.drop_first().map_values(|r: TreeRow| r->0)
}

/// Adding an entry anywhere in a list adds its bytes to the sum.
proof fn lemma_size_sum_insert(s: Seq<FsEntry>, pos: int, e: FsEntry)
    requires
        0 <= pos <= s.len(),
    ensures
        size_sum(s.insert(pos, e)) == size_sum(s) + size_of(e),
    decreases s.len(),
{
    if pos == s.len() {
        assert(s.insert(pos, e).drop_last() =~= s);
    } else {
        lemma_size_sum_insert(s.drop_last(), pos, e);
        assert(s.insert(pos, e).drop_last() =~= s.drop_last().insert(pos, e));
    }
}

/// Whether an entry has a smaller key than another.
fn key_below(a: &FsEntry, b: &FsEntry) -> (r: bool)
    ensures
        r == (size_key(*a) < size_key(*b)),
{
    match (a.size(), b.size()) {
        (_, None) => false,
        (None, Some(_)) => true,
        (Some(x), Some(y)) => x < y,
    }
}

/// The state of the tree panel: the directory shown and its rows. The rows,
/// the total and the table state are changed through the methods, which keep
/// `wf`.
pub struct TreeState {
    pub path: FsPath,
    pub rows: Vec<TreeRow>,
    pub total_size: u64,
    pub table_state: TableState,
    pub table_area: Area,
    pub scrollbar_area: Area,
    /// The row last clicked, and when, in milliseconds of a monotonic clock.
    pub last_click: Option<(usize, u64)>,
}

impl TreeState {
    pub open spec fn spec_rows(&self) -> Seq<TreeRow> {
        self.rows@
    }

    pub open spec fn spec_total_size(&self) -> u64 {
        self.total_size
    }

    pub open spec fn spec_table(&self) -> TableState {
        self.table_state
    }

    /// The entries shown, in the order of the rows.
    pub open spec fn spec_entries(&self) -> Seq<FsEntry> {
        entries_of(self.spec_rows())
    }

    /// The way up comes first, entries after it, and the total is the sum of
    /// their sizes.
    pub open spec fn wf(&self) -> bool {
        &&& rows_ok(self.spec_rows())
        &&& self.spec_total_size() == size_sum(self.spec_entries())
    }

    /// The rows show exactly the entries of a list, largest first, and the
    /// total is their sum.
    pub open spec fn shows(&self, es: Seq<FsEntry>) -> bool {
        &&& self.wf()
        &&& self.spec_entries().to_multiset() == es.to_multiset()
        &&& sorted_by_size(self.spec_entries())
        &&& self.spec_total_size() == size_sum(es)
    }

    /// Two states agree on what the drawing and the clicks left.
    pub open spec fn same_frame(&self, other: TreeState) -> bool {
        &&& self.table_area == other.table_area
        &&& self.scrollbar_area == other.scrollbar_area
        &&& self.last_click == other.last_click
    }

    /// The row selected, when it is an entry.
    pub open spec fn spec_selected_entry(&self) -> Option<FsEntry> {
        match self.spec_table().spec_selected() {
            Some(i) => if 1 <= i < self.spec_rows().len() {
                Some(self.spec_entries()[i - 1])
            } else {
                None
            },
            None => None,
        }
    }

    /// A directory with nothing read yet: only the way up, nothing selected.
    pub fn new(path: FsPath) -> (r: TreeState)
        ensures
            r.wf(),
            r.path == path,
            r.spec_rows() == seq![TreeRow::Parent],
            r.spec_total_size() == 0,
            r.spec_table() == TableState::initial(),
            r.table_area == (Area { x: 0, y: 0, width: 0, height: 0 }),
            r.scrollbar_area == (Area { x: 0, y: 0, width: 0, height: 0 }),
            r.last_click is None,
    {
        let mut rows: Vec<TreeRow> = Vec::new();
        rows.push(TreeRow::Parent);
        let r = TreeState {
            path,
            rows,
            total_size: 0,
            table_state: TableState::new(),
            table_area: Area { x: 0, y: 0, width: 0, height: 0 },
            scrollbar_area: Area { x: 0, y: 0, width: 0, height: 0 },
            last_click: None,
        };
        assert(r.spec_entries() =~= Seq::<FsEntry>::empty());
        r
    }

    pub fn rows(&self) -> (r: &Vec<TreeRow>)
        ensures
            r@ == self.spec_rows(),
    {
        &self.rows
    }

    pub fn total_size(&self) -> (r: u64)
        ensures
            r == self.spec_total_size(),
    {
        self.total_size
    }

    pub fn table_state(&self) -> (r: &TableState)
        ensures
            *r == self.spec_table(),
    {
        &self.table_state
    }

    /// The table state, to be updated by the drawing of the table and by
    /// nothing else.
    pub fn table_state_mut(&mut self) -> (r: &mut TableState)
        ensures
            *r == old(self).spec_table(),
            final(self).spec_table() == *final(r),
            final(self).spec_rows() == old(self).spec_rows(),
            final(self).spec_total_size() == old(self).spec_total_size(),
            final(self).path == old(self).path,
            final(self).table_area == old(self).table_area,
            final(self).scrollbar_area == old(self).scrollbar_area,
            final(self).last_click == old(self).last_click,
    {
        &mut self.table_state
    }

    /// How many entries are shown (the way up not counted).
    pub fn entries_len(&self) -> (r: usize)
        requires
            self.wf(),
        ensures
            r == self.spec_entries().len(),
    {
        self.rows.len() - 1
    }

    /// The entries shown, in order.
    pub fn entries(&self) -> (r: Vec<&FsEntry>)
        requires
            self.wf(),
        ensures
            r@.len() == self.spec_entries().len(),
            forall|i: int| 0 <= i < r@.len() ==> *(#[trigger] r@[i]) == self.spec_entries()[i],
    {
        let mut r: Vec<&FsEntry> = Vec::new();
        let mut i: usize = 1;
        while i < self.rows.len()
            invariant
                self.wf(),
                1 <= i <= self.rows.len(),
                r@.len() == i - 1,
                forall|k: int| 0 <= k < r@.len() ==> *(#[trigger] r@[k]) == self.spec_entries()[k],
            decreases self.rows.len() - i,
        {
            match &self.rows[i] {
                TreeRow::Entry(e) => {
                    r.push(e);
                },
                TreeRow::Parent => {
                    assert(self.spec_rows()[i as int] is Entry);
                },
            }
            i = i + 1;
        }
        r
    }

    /// The entry of the selected row; none when no row is selected, when the
    /// way up is, or when the selection lies past the rows.
    pub fn selected_entry(&self) -> (r: Option<&FsEntry>)
        requires
            self.wf(),
        ensures
            match r {
                Some(e) => self.spec_selected_entry() == Some(*e),
                None => self.spec_selected_entry() is None,
            },
    {
        let i = match self.table_state.selected() {
            Some(i) => i,
            None => {
                return None;
            },
        };
        if i >= self.rows.len() {
            return None;
        }
        match &self.rows[i] {
            TreeRow::Parent => None,
            TreeRow::Entry(e) => Some(e),
        }
    }

    /// Shows a list of entries, largest first, below the way up; entries of
    /// unknown size come last, and equal sizes in no set order. The total is
    /// the sum of the known sizes.
    pub fn set_rows(&mut self, entries: Vec<FsEntry>)
        requires
            size_sum(entries@) <= u64::MAX,
        ensures
            final(self).wf(),
            final(self).spec_entries().to_multiset() == entries@.to_multiset(),
            sorted_by_size(final(self).spec_entries()),
            final(self).spec_total_size() == size_sum(entries@),
            final(self).spec_table() == old(self).spec_table(),
            final(self).path == old(self).path,
            final(self).table_area == old(self).table_area,
            final(self).scrollbar_area == old(self).scrollbar_area,
            final(self).last_click == old(self).last_click,
    {
        broadcast use {group_to_multiset_ensures, group_multiset_axioms};

        let ghost orig = entries@;
        let mut src = entries;
        let mut rows: Vec<TreeRow> = Vec::new();
        rows.push(TreeRow::Parent);
        let mut total: u64 = 0;
        proof {
            assert(entries_of(rows@) =~= Seq::<FsEntry>::empty());
        }
        while src.len() > 0
            invariant
                rows_ok(rows@),
                entries_of(rows@).to_multiset().add(src@.to_multiset()) == orig.to_multiset(),
                sorted_by_size(entries_of(rows@)),
                total == size_sum(entries_of(rows@)),
                size_sum(entries_of(rows@)) + size_sum(src@) == size_sum(orig),
                size_sum(orig) <= u64::MAX,
            decreases src.len(),
        {
            let ghost before = src@;
            let ghost es = entries_of(rows@);
            let e = match src.pop() {
                Some(e) => e,
                None => {
                    return;
                },
            };
            proof {
                assert(before =~= src@.push(e));
                assert(before.drop_last() =~= src@);
            }
            let mut pos: usize = 1;
            while pos < rows.len() && !Self::entry_below(&rows[pos], &e)
                invariant
                    rows_ok(rows@),
                    es == entries_of(rows@),
                    1 <= pos <= rows.len(),
                    forall|j: int| 0 <= j < pos - 1 ==> size_key(#[trigger] es[j]) >= size_key(e),
                decreases rows.len() - pos,
            {
                pos = pos + 1;
            }
            let ghost k = pos - 1;
            proof {
                lemma_size_sum_insert(es, k, e);
                assert forall|a: int, b: int| 0 <= a < b < es.len() + 1 implies size_key(
                    #[trigger] es.insert(k, e)[a],
                ) >= size_key(#[trigger] es.insert(k, e)[b]) by {
                    if b < k {
                    } else if a > k {
                    } else if a == k {
                        assert(size_key(es[k]) < size_key(e));
                        if b - 1 > k {
                            assert(size_key(es[k]) >= size_key(es[b - 1]));
                        }
                    } else {
                    }
                }
            }
            let add: u64 = match e.size() {
                Some(s) => s,
                None => 0,
            };
            total = total + add;
            rows.insert(pos, TreeRow::Entry(e));
            proof {
                assert(entries_of(rows@) =~= es.insert(k, e));
                to_multiset_insert(es, k, e);
                to_multiset_build(src@, e);
                assert(es.to_multiset().insert(e).add(src@.to_multiset()) =~= es.to_multiset().add(
                    src@.to_multiset().insert(e),
                ));
            }
        }
        proof {
            assert(src@.to_multiset() =~= Multiset::<FsEntry>::empty());
        }
        self.rows = rows;
        self.total_size = total;
    }

    /// Whether a row holds an entry of smaller key than another entry.
    fn entry_below(row: &TreeRow, e: &FsEntry) -> (r: bool)
        requires
            *row is Entry,
        ensures
            r == (size_key(row->0) < size_key(*e)),
    {
        match row {
            TreeRow::Entry(x) => key_below(x, e),
            TreeRow::Parent => false,
        }
    }

    /// Whether a row can be selected: none always can, a row when it exists.
    pub open spec fn can_select(&self, index: Option<usize>) -> bool {
        match index {
            Some(i) => i < self.spec_rows().len(),
            None => true,
        }
    }

    /// `next` is this state after asking to select a row: selected when it
    /// can be, unchanged otherwise.
    pub open spec fn selects(&self, index: Option<usize>, next: TreeState) -> bool {
        &&& next.table_state == if self.can_select(index) {
            self.table_state.selecting(index)
        } else {
            self.table_state
        }
        &&& next.rows == self.rows
        &&& next.total_size == self.total_size
        &&& next.path == self.path
        &&& next.same_frame(*self)
    }

    /// The row before the selected one, staying on the first; the first
    /// when none is selected.
    pub open spec fn previous_row(&self) -> usize {
        match self.table_state.spec_selected() {
            Some(i) => sat_dec(i),
            None => 0,
        }
    }

    /// The row after the selected one; the second when none is selected.
    pub open spec fn next_row(&self) -> usize {
        match self.table_state.spec_selected() {
            Some(i) => sat_inc(i),
            None => 1,
        }
    }

    /// Selects a row, or none; a row past the end is refused and changes
    /// nothing. Returns whether the selection was made.
    pub fn select_row(&mut self, index: Option<usize>) -> (r: bool)
        ensures
            r == old(self).can_select(index),
            old(self).selects(index, *final(self)),
    {
        match index {
            Some(idx) => {
                if idx < self.rows.len() {
                    self.table_state.select(Some(idx));
                    true
                } else {
                    false
                }
            },
            None => {
                self.table_state.select(None);
                true
            },
        }
    }

    /// Selects the row before the selected one, as `previous_row` says;
    /// returns whether the selection was made.
    pub fn select_previous_row(&mut self) -> (r: bool)
        ensures
            r == old(self).can_select(Some(old(self).previous_row())),
            old(self).selects(Some(old(self).previous_row()), *final(self)),
    {
        let selected = self.table_state.selected();
        let current = match selected {
            Some(i) => i,
            None => 0,
        };
        self.select_row(Some(current.saturating_sub(1)))
    }

    /// Selects the row after the selected one, as `next_row` says; returns
    /// whether the selection was made.
    pub fn select_next_row(&mut self) -> (r: bool)
        ensures
            r == old(self).can_select(Some(old(self).next_row())),
            old(self).selects(Some(old(self).next_row()), *final(self)),
    {
        let selected = self.table_state.selected();
        let current = match selected {
            Some(i) => i,
            None => 0,
        };
        self.select_row(Some(current.saturating_add(1)))
    }
}

} // verus!
