use crate::app::table::{sat_dec, sat_inc, Area, TableState};
use crate::app::state::tree::size_of;
use crate::fs::entry::FsEntry;
use crate::fs::path::{FsPath, PathView};
use vstd::prelude::*;

verus! {

broadcast use {TableState::lemma_selecting, TableState::lemma_selecting_twice};

/// An entry waiting in the bin to be deleted for good.
#[derive(Clone, Debug)]
pub struct BinEntry {
    pub path: FsPath,
    pub size: u64,
    pub is_dir: bool,
    pub file_count: u64,
}

/// What a bin entry holds, its path taken by its view.
pub struct BinEntryView {
    pub path: PathView,
    pub size: u64,
    pub is_dir: bool,
    pub file_count: u64,
}

impl View for BinEntry {
    type V = BinEntryView;

    open spec fn view(&self) -> BinEntryView {
        BinEntryView { path: self.path@, size: self.size, is_dir: self.is_dir, file_count: self.file_count }
    }
}

/// The views of a list of bin entries.
pub open spec fn rows_view(rows: Seq<BinEntry>) -> Seq<BinEntryView> {
    rows.map_values(|e: BinEntry| e@)
}

/// The sum of the sizes of a list of bin entries.
pub open spec fn size_total(s: Seq<BinEntryView>) -> nat
    decreases s.len(),
{
    if s.len() == 0 {
        0
    } else {
        size_total(s.drop_last()) + s.last().size as nat
    }
}

/// The sum of the file counts of a list of bin entries.
pub open spec fn files_total(s: Seq<BinEntryView>) -> nat
    decreases s.len(),
{
    if s.len() == 0 {
        0
    } else {
        files_total(s.drop_last()) + s.last().file_count as nat
    }
}

/// The entries of `s` whose flag in `flags` equals `keep`, in order.
pub open spec fn pick(s: Seq<BinEntryView>, flags: Seq<bool>, keep: bool) -> Seq<BinEntryView>
    decreases s.len(),
{
    if s.len() == 0 || flags.len() == 0 {
        Seq::empty()
    } else {
        let rest = pick(s.drop_last(), flags.drop_last(), keep);
        if flags.last() == keep {
            rest.push(s.last())
        } else {
            rest
        }
    }
}

/// A row number as an index of a sequence.
pub open spec fn as_index(o: Option<usize>) -> Option<int> {
    match o {
        Some(i) => Some(i as int),
        None => None,
    }
}

/// The index of the first entry with a given path, if any.
pub open spec fn index_of_path(s: Seq<BinEntryView>, path: PathView) -> Option<int> {
    if exists|i: int| 0 <= i < s.len() && (#[trigger] s[i]).path == path {
        Some(
            choose|i: int|
                0 <= i < s.len() && (#[trigger] s[i]).path == path && forall|j: int|
                    0 <= j < i ==> (#[trigger] s[j]).path != path,
        )
    } else {
        None
    }
}

proof fn lemma_totals_push(s: Seq<BinEntryView>, x: BinEntryView)
    ensures
        size_total(s.push(x)) == size_total(s) + x.size,
        files_total(s.push(x)) == files_total(s) + x.file_count,
{
    assert(s.push(x).drop_last() =~= s);
}

proof fn lemma_totals_remove(s: Seq<BinEntryView>, i: int)
    requires
        0 <= i < s.len(),
    ensures
        size_total(s.remove(i)) + s[i].size == size_total(s),
        files_total(s.remove(i)) + s[i].file_count == files_total(s),
    decreases s.len(),
{
    if i == s.len() - 1 {
        assert(s.remove(i) =~= s.drop_last());
    } else {
        lemma_totals_remove(s.drop_last(), i);
        assert(s.remove(i).drop_last() =~= s.drop_last().remove(i));
    }
}

proof fn lemma_totals_append(a: Seq<BinEntryView>, b: Seq<BinEntryView>)
    ensures
        size_total(a + b) == size_total(a) + size_total(b),
        files_total(a + b) == files_total(a) + files_total(b),
    decreases b.len(),
{
    if b.len() == 0 {
        assert(a + b =~= a);
    } else {
        lemma_totals_append(a, b.drop_last());
        assert((a + b).drop_last() =~= a + b.drop_last());
    }
}

/// A clear loses no bytes and no files: what it takes out and what it
/// keeps add up to what the bin held.
pub proof fn lemma_pick_totals(s: Seq<BinEntryView>, flags: Seq<bool>)
    requires
        s.len() == flags.len(),
    ensures
        size_total(pick(s, flags, true)) + size_total(pick(s, flags, false)) == size_total(s),
        files_total(pick(s, flags, true)) + files_total(pick(s, flags, false)) == files_total(s),
    decreases s.len(),
{
    if s.len() > 0 {
        lemma_pick_totals(s.drop_last(), flags.drop_last());
        lemma_totals_push(pick(s.drop_last(), flags.drop_last(), true), s.last());
        lemma_totals_push(pick(s.drop_last(), flags.drop_last(), false), s.last());
    }
}

proof fn lemma_pick_take(s: Seq<BinEntryView>, flags: Seq<bool>, keep: bool, i: int)
    requires
        s.len() == flags.len(),
        0 <= i < s.len(),
    ensures
        pick(s.take(i + 1), flags.take(i + 1), keep) == if flags[i] == keep {
            pick(s.take(i), flags.take(i), keep).push(s[i])
        } else {
            pick(s.take(i), flags.take(i), keep)
        },
{
    assert(s.take(i + 1).drop_last() =~= s.take(i));
    assert(flags.take(i + 1).drop_last() =~= flags.take(i));
}

/// Every entry picked has a property that every entry with that flag has.
pub proof fn lemma_pick_all(
    s: Seq<BinEntryView>,
    flags: Seq<bool>,
    keep: bool,
    pred: spec_fn(BinEntryView) -> bool,
)
    requires
        s.len() == flags.len(),
        forall|i: int| 0 <= i < s.len() && flags[i] == keep ==> pred(#[trigger] s[i]),
    ensures
        forall|j: int| 0 <= j < pick(s, flags, keep).len() ==> pred(#[trigger] pick(s, flags, keep)[j]),
    decreases s.len(),
{
    if s.len() > 0 && flags.len() > 0 {
        let s0 = s.drop_last();
        let f0 = flags.drop_last();
        assert forall|i: int| 0 <= i < s0.len() && f0[i] == keep implies pred(#[trigger] s0[i]) by {
            assert(s0[i] == s[i]);
        }
        lemma_pick_all(s0, f0, keep, pred);
        let rest = pick(s0, f0, keep);
        if flags.last() == keep {
            assert(pred(s[s.len() - 1]));
            assert forall|j: int| 0 <= j < rest.push(s.last()).len() implies pred(
                #[trigger] rest.push(s.last())[j],
            ) by {
                if j < rest.len() {
                    assert(pred(rest[j]));
                }
            }
        }
    }
}

/// A clear takes out and keeps, between them, every entry of the bin once.
pub proof fn lemma_pick_lengths(s: Seq<BinEntryView>, flags: Seq<bool>)
    requires
        s.len() == flags.len(),
    ensures
        pick(s, flags, true).len() + pick(s, flags, false).len() == s.len(),
    decreases s.len(),
{
    if s.len() > 0 {
        lemma_pick_lengths(s.drop_last(), flags.drop_last());
    }
}

/// Taking out the entry just put in the bin gives back the rows it held,
/// and so the totals.
pub proof fn lemma_push_then_remove(rows: Seq<BinEntryView>, e: BinEntryView)
    ensures
        rows.push(e).remove(rows.len() as int) == rows,
        size_total(rows.push(e)) == size_total(rows) + e.size,
        files_total(rows.push(e)) == files_total(rows) + e.file_count,
{
    assert(rows.push(e).remove(rows.len() as int) =~= rows);
    lemma_totals_push(rows, e);
}

/// The entry put last in the bin is the first one with its path, when no
/// earlier entry had that path.
pub proof fn lemma_index_of_pushed_path(rows: Seq<BinEntryView>, e: BinEntryView)
    requires
        !(exists|i: int| 0 <= i < rows.len() && (#[trigger] rows[i]).path == e.path),
    ensures
        index_of_path(rows.push(e), e.path) == Some(rows.len() as int),
{
    let s = rows.push(e);
    let n = rows.len() as int;
    assert(s[n].path == e.path);
    assert forall|j: int| 0 <= j < n implies (#[trigger] s[j]).path != e.path by {
        assert(s[j] == rows[j]);
    }
    assert(0 <= n < s.len() && s[n].path == e.path && forall|j: int| 0 <= j < n ==> (#[trigger] s[j]).path != e.path);
    let k = index_of_path(s, e.path)->0;
    if k < n {
        assert(s[k] == rows[k]);
    }
    if k > n {
        assert(s[n].path != e.path);
    }
}

impl BinEntry {
    /// A bin entry for a tree entry found at a path: its size (0 while
    /// unknown), whether it is a directory, and how many files it holds.
    pub fn from_entry_at(entry: &FsEntry, path: FsPath, file_count: u64) -> (r: BinEntry)
        ensures
            r.path == path,
            r.size == size_of(*entry),
            r.is_dir == entry.spec_is_dir(),
            r.file_count == file_count,
    {
        let size = match entry.size() {
            Some(s) => s,
            None => 0,
        };
        BinEntry { path, size, is_dir: entry.is_dir(), file_count }
    }

    /// A copy of the entry.
    pub fn duplicate(&self) -> (r: BinEntry)
        ensures
            r@ == self@,
    {
        BinEntry {
            path: self.path.duplicate(),
            size: self.size,
            is_dir: self.is_dir,
            file_count: self.file_count,
        }
    }
}

impl Default for BinEntry {
    /// An entry with an empty relative path, of no size and no files.
    fn default() -> (r: BinEntry)
        ensures
            r@.path.parts.len() == 0,
            !r@.path.absolute,
            r.size == 0,
            !r.is_dir,
            r.file_count == 0,
    {
        BinEntry { path: FsPath::new(false, Vec::new()), size: 0, is_dir: false, file_count: 0 }
    }
}

/// The state of the bin panel: the entries to delete, their totals, and the
/// table that shows them. The rows, the totals and the table state are
/// changed through the methods, which keep `wf`.
pub struct BinState {
    pub rows: Vec<BinEntry>,
    pub total_size: u64,
    pub total_files: u64,
    pub table_state: TableState,
    pub table_area: Area,
    pub scrollbar_area: Area,
}

impl BinState {
    pub open spec fn spec_rows(&self) -> Seq<BinEntryView> {
        rows_view(self.rows@)
    }

    /// The totals are the sums over the rows.
    pub open spec fn wf(&self) -> bool {
        &&& self.total_size == size_total(self.spec_rows())
        &&& self.total_files == files_total(self.spec_rows())
    }

    /// Whether a path is in the bin.
    pub open spec fn has_path(&self, path: PathView) -> bool {
        exists|i: int| 0 <= i < self.spec_rows().len() && (#[trigger] self.spec_rows()[i]).path == path
    }

    /// The table state after removing a row: the selection moves one up.
    pub open spec fn after_removal(t: TableState) -> TableState {
        t.selecting(
            Some(
                match t.spec_selected() {
                    None => usize::MAX,
                    Some(i) => sat_dec(i),
                },
            ),
        )
    }

    /// `next` is this bin with the row at `index` taken out and the
    /// selection moved one up; this bin itself for no index.
    pub open spec fn removed_at(&self, index: Option<int>, next: BinState) -> bool {
        &&& match index {
            Some(i) => next.spec_rows() == self.spec_rows().remove(i) && next.table_state
                == BinState::after_removal(self.table_state),
            None => next.spec_rows() == self.spec_rows() && next.table_state == self.table_state,
        }
        &&& next.table_area == self.table_area
        &&& next.scrollbar_area == self.scrollbar_area
    }

    /// An empty bin, nothing selected.
    pub fn new() -> (r: BinState)
        ensures
            r.wf(),
            r.spec_rows().len() == 0,
            r.table_state == TableState::initial(),
            r.table_area == (Area { x: 0, y: 0, width: 0, height: 0 }),
            r.scrollbar_area == (Area { x: 0, y: 0, width: 0, height: 0 }),
    {
        let r = BinState {
            rows: Vec::new(),
            total_size: 0,
            total_files: 0,
            table_state: TableState::new(),
            table_area: Area { x: 0, y: 0, width: 0, height: 0 },
            scrollbar_area: Area { x: 0, y: 0, width: 0, height: 0 },
        };
        assert(r.spec_rows() =~= Seq::<BinEntryView>::empty());
        r
    }

    pub fn rows(&self) -> (r: &Vec<BinEntry>)
        ensures
            rows_view(r@) == self.spec_rows(),
    {
        &self.rows
    }

    pub fn total_size(&self) -> (r: u64)
        ensures
            r == self.total_size,
    {
        self.total_size
    }

    pub fn total_files(&self) -> (r: u64)
        ensures
            r == self.total_files,
    {
        self.total_files
    }

    pub fn table_state(&self) -> (r: &TableState)
        ensures
            *r == self.table_state,
    {
        &self.table_state
    }

    /// The table state, to be updated by the drawing of the table and by
    /// nothing else.
    pub fn table_state_mut(&mut self) -> (r: &mut TableState)
        ensures
            *r == old(self).table_state,
            final(self).table_state == *final(r),
            final(self).rows == old(self).rows,
            final(self).total_size == old(self).total_size,
            final(self).total_files == old(self).total_files,
            final(self).table_area == old(self).table_area,
            final(self).scrollbar_area == old(self).scrollbar_area,
    {
        &mut self.table_state
    }

    /// Whether an entry with this path is in the bin.
    pub fn contains_path(&self, path: &FsPath) -> (r: bool)
        ensures
            r == self.has_path(path@),
    {
        let mut i: usize = 0;
        while i < self.rows.len()
            invariant
                i <= self.rows.len(),
                forall|j: int| 0 <= j < i ==> (#[trigger] self.spec_rows()[j]).path != path@,
            decreases self.rows.len() - i,
        {
            if self.rows[i].path.same_as(path) {
                assert(self.spec_rows()[i as int].path == path@);
                return true;
            }
            i = i + 1;
        }
        false
    }

    /// Puts an entry at the end of the bin, adds it to the totals and
    /// selects it.
    pub fn push_entry(&mut self, entry: BinEntry)
        requires
            old(self).wf(),
            old(self).total_size + entry.size <= u64::MAX,
            old(self).total_files + entry.file_count <= u64::MAX,
        ensures
            final(self).wf(),
            final(self).spec_rows() == old(self).spec_rows().push(entry@),
            final(self).table_state == old(self).table_state.selecting(
                Some(old(self).spec_rows().len() as usize),
            ),
            final(self).table_area == old(self).table_area,
            final(self).scrollbar_area == old(self).scrollbar_area,
    {
        let ghost before = self.spec_rows();
        let ghost v = entry@;
        self.total_size = self.total_size + entry.size;
        self.total_files = self.total_files + entry.file_count;
        self.rows.push(entry);
        proof {
            assert(self.spec_rows() =~= before.push(v));
            lemma_totals_push(before, v);
        }
        self.table_state.select(Some(self.rows.len() - 1));
    }

    /// Puts entries at the end of the bin, one after the other, as
    /// `push_entry` does.
    pub fn push_entries(&mut self, entries: Vec<BinEntry>)
        requires
            old(self).wf(),
            old(self).total_size + size_total(rows_view(entries@)) <= u64::MAX,
            old(self).total_files + files_total(rows_view(entries@)) <= u64::MAX,
        ensures
            final(self).wf(),
            final(self).spec_rows() == old(self).spec_rows() + rows_view(entries@),
            final(self).table_state == if entries@.len() == 0 {
                old(self).table_state
            } else {
                old(self).table_state.selecting(Some((final(self).spec_rows().len() - 1) as usize))
            },
            final(self).table_area == old(self).table_area,
            final(self).scrollbar_area == old(self).scrollbar_area,
    {
        let ghost before = self.spec_rows();
        let ghost all = rows_view(entries@);
        let mut rest = entries;
        let mut done: usize = 0;
        proof {
            assert(all.skip(0) =~= all);
            assert(before + all.take(0) =~= before);
            assert(all.len() == rest.len());
        }
        while rest.len() > 0
            invariant
                self.wf(),
                all.len() <= usize::MAX,
                done <= all.len(),
                rows_view(rest@) == all.skip(done as int),
                self.spec_rows() == before + all.take(done as int),
                self.total_size + size_total(all.skip(done as int)) <= u64::MAX,
                self.total_files + files_total(all.skip(done as int)) <= u64::MAX,
                self.table_area == old(self).table_area,
                self.scrollbar_area == old(self).scrollbar_area,
                done == 0 ==> self.table_state == old(self).table_state,
                done > 0 ==> self.table_state == old(self).table_state.selecting(
                    Some((self.spec_rows().len() - 1) as usize),
                ),
            decreases rest.len(),
        {
            let ghost tail = all.skip(done as int);
            let ghost r0 = rest@;
            assert(rows_view(r0).len() == r0.len());
            let entry = rest.remove(0);
            proof {
                assert(rows_view(rest@) =~= rows_view(r0).drop_first());
                assert(tail.len() == r0.len());
                assert(done < all.len());
                assert(entry@ == tail[0]);
                assert(tail =~= seq![tail[0]] + tail.drop_first());
                lemma_totals_append(seq![tail[0]], tail.drop_first());
                assert(seq![tail[0]].drop_last() =~= Seq::<BinEntryView>::empty());
                assert(rows_view(rest@) =~= all.skip(done + 1));
                assert(tail.drop_first() =~= all.skip(done + 1));
            }
            let ghost cur = self.spec_rows();
            proof {
                lemma_totals_push(cur, entry@);
            }
            self.push_entry(entry);
            proof {
                assert(before + all.take(done + 1) =~= (before + all.take(done as int)).push(all[done as int]));
            }
            done = done + 1;
        }
        proof {
            assert(all.take(done as int) =~= all);
        }
    }

    /// Takes the entry at an index out of the bin, subtracts it from the
    /// totals and moves the selection one up.
    pub fn remove_entry(&mut self, index: usize)
        requires
            old(self).wf(),
            index < old(self).spec_rows().len(),
        ensures
            final(self).wf(),
            final(self).spec_rows() == old(self).spec_rows().remove(index as int),
            final(self).table_state == BinState::after_removal(old(self).table_state),
            final(self).table_area == old(self).table_area,
            final(self).scrollbar_area == old(self).scrollbar_area,
    {
        let ghost before = self.spec_rows();
        let entry = self.rows.remove(index);
        proof {
            assert(self.spec_rows() =~= before.remove(index as int));
            lemma_totals_remove(before, index as int);
        }
        self.total_size = self.total_size - entry.size;
        self.total_files = self.total_files - entry.file_count;
        self.table_state.select_previous();
    }

    /// Takes the first entry with a path out of the bin, as `remove_entry`
    /// does; does nothing when no entry has it.
    pub fn restore_by_path(&mut self, path: &FsPath)
        requires
            old(self).wf(),
        ensures
            final(self).wf(),
            old(self).removed_at(index_of_path(old(self).spec_rows(), path@), *final(self)),
    {
        let ghost s = self.spec_rows();
        let mut i: usize = 0;
        while i < self.rows.len()
            invariant
                self.wf(),
                s == self.spec_rows(),
                i <= self.rows.len(),
                forall|j: int| 0 <= j < i ==> (#[trigger] s[j]).path != path@,
                self.table_state == old(self).table_state,
                self.table_area == old(self).table_area,
                self.scrollbar_area == old(self).scrollbar_area,
                self.spec_rows() == old(self).spec_rows(),
            decreases self.rows.len() - i,
        {
            if self.rows[i].path.same_as(path) {
                proof {
                    let ii = i as int;
                    assert(s[ii].path == path@);
                    assert(exists|k: int|
                        0 <= k < s.len() && (#[trigger] s[k]).path == path@ && forall|j: int|
                            0 <= j < k ==> (#[trigger] s[j]).path != path@) by {
                        assert(0 <= ii < s.len() && s[ii].path == path@ && forall|j: int|
                            0 <= j < ii ==> (#[trigger] s[j]).path != path@);
                    }
                    let k = index_of_path(s, path@)->0;
                    assert(index_of_path(s, path@) is Some);
                    if k < ii {
                        assert(s[k].path != path@);
                    }
                    if k > ii {
                        assert(s[ii].path != path@);
                    }
                    assert(k == ii);
                }
                self.remove_entry(i);
                return;
            }
            i = i + 1;
        }
        proof {
            assert(!(exists|j: int| 0 <= j < s.len() && (#[trigger] s[j]).path == path@));
        }
    }

    /// Takes the selected entry out of the bin, as `remove_entry` does;
    /// does nothing when no row is selected.
    pub fn restore_selected(&mut self)
        requires
            old(self).wf(),
            old(self).table_state.spec_selected() matches Some(i) ==> i < old(self).spec_rows().len(),
        ensures
            final(self).wf(),
            old(self).removed_at(as_index(old(self).table_state.spec_selected()), *final(self)),
    {
        match self.table_state.selected() {
            Some(selected) => self.remove_entry(selected),
            None => {},
        }
    }

    /// Empties the bin of the entries that were deleted: `deleted[i]` tells
    /// whether the deletion of row `i` succeeded. Returns the entries taken
    /// out, in order; the others stay, in order, with the totals summed anew
    /// and the first row selected.
    pub fn clear(&mut self, deleted: &Vec<bool>) -> (r: Vec<BinEntry>)
        requires
            old(self).wf(),
            deleted@.len() == old(self).spec_rows().len(),
        ensures
            final(self).wf(),
            rows_view(r@) == pick(old(self).spec_rows(), deleted@, true),
            final(self).spec_rows() == pick(old(self).spec_rows(), deleted@, false),
            final(self).table_state == old(self).table_state.selecting(Some(0usize)),
            final(self).table_area == old(self).table_area,
            final(self).scrollbar_area == old(self).scrollbar_area,
    {
        let ghost s = self.spec_rows();
        let mut cleared: Vec<BinEntry> = Vec::new();
        let mut kept: Vec<BinEntry> = Vec::new();
        let mut i: usize = 0;
        proof {
            assert(s.take(0) =~= Seq::<BinEntryView>::empty());
            assert(rows_view(cleared@) =~= Seq::<BinEntryView>::empty());
            assert(rows_view(kept@) =~= Seq::<BinEntryView>::empty());
        }
        while i < self.rows.len()
            invariant
                s == self.spec_rows(),
                deleted@.len() == s.len(),
                i <= s.len(),
                rows_view(cleared@) == pick(s.take(i as int), deleted@.take(i as int), true),
                rows_view(kept@) == pick(s.take(i as int), deleted@.take(i as int), false),
            decreases self.rows.len() - i,
        {
            let e = self.rows[i].duplicate();
            proof {
                lemma_pick_take(s, deleted@, true, i as int);
                lemma_pick_take(s, deleted@, false, i as int);
            }
            if deleted[i] {
                let ghost c = rows_view(cleared@);
                cleared.push(e);
                assert(rows_view(cleared@) =~= c.push(s[i as int]));
            } else {
                let ghost k = rows_view(kept@);
                kept.push(e);
                assert(rows_view(kept@) =~= k.push(s[i as int]));
            }
            i = i + 1;
        }
        proof {
            assert(s.take(s.len() as int) =~= s);
            assert(deleted@.take(s.len() as int) =~= deleted@);
            lemma_pick_totals(s, deleted@);
        }
        let ghost ks = rows_view(kept@);
        let mut total_size: u64 = 0;
        let mut total_files: u64 = 0;
        let mut j: usize = 0;
        proof {
            assert(ks.take(0) =~= Seq::<BinEntryView>::empty());
        }
        while j < kept.len()
            invariant
                ks == rows_view(kept@),
                j <= kept.len(),
                size_total(ks) <= u64::MAX,
                files_total(ks) <= u64::MAX,
                total_size == size_total(ks.take(j as int)),
                total_files == files_total(ks.take(j as int)),
            decreases kept.len() - j,
        {
            proof {
                assert(ks.take(j + 1) =~= ks.take(j as int).push(ks[j as int]));
                lemma_totals_push(ks.take(j as int), ks[j as int]);
                assert(ks =~= ks.take(j + 1) + ks.skip(j + 1));
                lemma_totals_append(ks.take(j + 1), ks.skip(j + 1));
            }
            total_size = total_size + kept[j].size;
            total_files = total_files + kept[j].file_count;
            j = j + 1;
        }
        proof {
            assert(ks.take(j as int) =~= ks);
        }
        self.rows = kept;
        self.total_size = total_size;
        self.total_files = total_files;
        self.table_state.select_first();
        cleared
    }

    /// Whether a row can be selected: none always can, a row when it exists.
    pub open spec fn can_select(&self, index: Option<usize>) -> bool {
        match index {
            Some(i) => i < self.spec_rows().len(),
            None => true,
        }
    }

    /// `next` is this state after asking to select a row: selected when it
    /// can be, unchanged otherwise.
    pub open spec fn selects(&self, index: Option<usize>, next: BinState) -> bool {
        &&& next.table_state == if self.can_select(index) {
            self.table_state.selecting(index)
        } else {
            self.table_state
        }
        &&& next.rows == self.rows
        &&& next.total_size == self.total_size
        &&& next.total_files == self.total_files
        &&& next.table_area == self.table_area
        &&& next.scrollbar_area == self.scrollbar_area
    }

    /// The row before the selected one, staying on the first; the first
    /// when none is selected.
    pub open spec fn previous_row(&self) -> usize {
        match self.table_state.spec_selected() {
            Some(i) => sat_dec(i),
            None => 0,
        }
    }

    /// The row after the selected one; the second when none is selected.
    pub open spec fn next_row(&self) -> usize {
        match self.table_state.spec_selected() {
            Some(i) => sat_inc(i),
            None => 1,
        }
    }

    /// Selects a row, or none; a row past the end is refused and changes
    /// nothing. Returns whether the selection was made.
    pub fn select_row(&mut self, index: Option<usize>) -> (r: bool)
        ensures
            r == old(self).can_select(index),
            old(self).selects(index, *final(self)),
    {
        match index {
            Some(idx) => {
                if idx < self.rows.len() {
                    self.table_state.select(Some(idx));
                    true
                } else {
                    false
                }
            },
            None => {
                self.table_state.select(None);
                true
            },
        }
    }

    /// Selects the row before the selected one, as `previous_row` says;
    /// returns whether the selection was made.
    pub fn select_previous_row(&mut self) -> (r: bool)
        ensures
            r == old(self).can_select(Some(old(self).previous_row())),
            old(self).selects(Some(old(self).previous_row()), *final(self)),
    {
        let selected = self.table_state.selected();
        let current = match selected {
            Some(i) => i,
            None => 0,
        };
        self.select_row(Some(current.saturating_sub(1)))
    }

    /// Selects the row after the selected one, as `next_row` says; returns
    /// whether the selection was made.
    pub fn select_next_row(&mut self) -> (r: bool)
        ensures
            r == old(self).can_select(Some(old(self).next_row())),
            old(self).selects(Some(old(self).next_row()), *final(self)),
    {
        let selected = self.table_state.selected();
        let current = match selected {
            Some(i) => i,
            None => 0,
        };
        self.select_row(Some(current.saturating_add(1)))
    }
}

impl Default for BinState {
    /// An empty bin, as `new` makes.
    fn default() -> (r: BinState)
        ensures
            r.wf(),
            r.spec_rows().len() == 0,
            r.table_state == TableState::initial(),
    {
        BinState::new()
    }
}

} // verus!
