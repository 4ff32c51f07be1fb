pub mod bin;
pub mod tree;

use crate::app::state::bin::{index_of_path, lemma_pick_all, pick, BinEntry, BinEntryView, BinState};
use crate::app::state::tree::{size_of, size_sum, TreeRow, TreeState};
use crate::app::table::TableState;
use crate::config::StateConfig;
use crate::fs::entry::FsEntry;
use crate::fs::model::{file_count, removed_paths, FsNode};
use crate::fs::path::{FsPath, PathView};
use crate::fs::tree::{children_entries, paths_parts, scanned_path, FsTree};
use vstd::prelude::*;

verus! {

/// One of the three panels of the interface.
#[derive(Clone, Copy, Debug, PartialEq, Eq, Hash, Structural)]
pub enum Component {
    Tree,
    Pie,
    Bin,
}

/// The panel a name stands for: `tree`, `pie` or `bin`.
pub open spec fn component_named(s: Seq<char>) -> Option<Component> {
    if s == "tree"@ {
        Some(Component::Tree)
    } else if s == "pie"@ {
        Some(Component::Pie)
    } else if s == "bin"@ {
        Some(Component::Bin)
    } else {
        None
    }
}

impl Component {
    /// The panels that take keyboard focus: the tree and the bin.
    pub open spec fn spec_is_interactive(self) -> bool {
        self is Tree || self is Bin
    }

    /// The name of the panel.
    pub open spec fn spec_name(self) -> Seq<char> {
        match self {
            Component::Tree => "tree"@,
            Component::Pie => "pie"@,
            Component::Bin => "bin"@,
        }
    }

    pub fn is_interactive(&self) -> (r: bool)
        ensures
            r == self.spec_is_interactive(),
    {
        match self {
            Component::Tree | Component::Bin => true,
            Component::Pie => false,
        }
    }

    /// The name of the panel: `tree`, `pie` or `bin`.
    pub fn name(&self) -> (r: String)
        ensures
            r@ == self.spec_name(),
    {
        match self {
            Component::Tree => String::from_str("tree"),
            Component::Pie => String::from_str("pie"),
            Component::Bin => String::from_str("bin"),
        }
    }

    /// The panel a name stands for; none for any other name.
    pub fn from_name(s: &String) -> (r: Option<Component>)
        ensures
            r == component_named(s@),
    {
        if *s == String::from_str("tree") {
            Some(Component::Tree)
        } else if *s == String::from_str("pie") {
            Some(Component::Pie)
        } else if *s == String::from_str("bin") {
            Some(Component::Bin)
        } else {
            None
        }
    }
}

/// The names of a panel and of no other are distinct.
pub proof fn lemma_names_distinct()
    ensures
        component_named(Component::Tree.spec_name()) == Some(Component::Tree),
        component_named(Component::Pie.spec_name()) == Some(Component::Pie),
        component_named(Component::Bin.spec_name()) == Some(Component::Bin),
{
    reveal_strlit("tree");
    reveal_strlit("pie");
    reveal_strlit("bin");
    assert("tree"@.len() != "pie"@.len());
    assert("tree"@.len() != "bin"@.len());
    assert("pie"@[0] != "bin"@[0]);
}

/// The set of panels shown.
#[derive(Clone, Copy, Debug, PartialEq, Eq, Structural)]
pub struct ActiveSet {
    tree: bool,
    pie: bool,
    bin: bool,
}

impl View for ActiveSet {
    type V = Set<Component>;

    closed spec fn view(&self) -> Set<Component> {
        Set::new(
            |c: Component|
                match c {
                    Component::Tree => self.tree,
                    Component::Pie => self.pie,
                    Component::Bin => self.bin,
                },
        )
    }
}

impl ActiveSet {
    /// No panel.
    pub fn new() -> (r: ActiveSet)
        ensures
            r@ == Set::<Component>::empty(),
    {
        let r = ActiveSet { tree: false, pie: false, bin: false };
        assert(r@ =~= Set::<Component>::empty());
        r
    }

    pub fn contains(&self, c: &Component) -> (r: bool)
        ensures
            r == self@.contains(*c),
    {
        match c {
            Component::Tree => self.tree,
            Component::Pie => self.pie,
            Component::Bin => self.bin,
        }
    }

    /// Adds a panel; returns whether it was absent.
    pub fn insert(&mut self, c: Component) -> (r: bool)
        ensures
            final(self)@ == old(self)@.insert(c),
            r == !old(self)@.contains(c),
    {
        let r = !self.contains(&c);
        match c {
            Component::Tree => self.tree = true,
            Component::Pie => self.pie = true,
            Component::Bin => self.bin = true,
        }
        assert(self@ =~= old(self)@.insert(c));
        r
    }

    /// Takes a panel out; returns whether it was present.
    pub fn remove(&mut self, c: &Component) -> (r: bool)
        ensures
            final(self)@ == old(self)@.remove(*c),
            r == old(self)@.contains(*c),
    {
        let r = self.contains(c);
        match c {
            Component::Tree => self.tree = false,
            Component::Pie => self.pie = false,
            Component::Bin => self.bin = false,
        }
        assert(self@ =~= old(self)@.remove(*c));
        r
    }

    pub fn is_empty(&self) -> (r: bool)
        ensures
            r == (self@ == Set::<Component>::empty()),
    {
        let r = !self.tree && !self.pie && !self.bin;
        if !r {
            assert(self@.contains(Component::Tree) || self@.contains(Component::Pie) || self@.contains(
                Component::Bin,
            ));
        } else {
            assert(self@ =~= Set::<Component>::empty());
        }
        r
    }

    /// Whether a panel that takes focus is shown.
    pub fn any_interactive(&self) -> (r: bool)
        ensures
            r == exists|c: Component| #[trigger] self@.contains(c) && c.spec_is_interactive(),
    {
        let r = self.tree || self.bin;
        if r {
            if self.tree {
                assert(self@.contains(Component::Tree));
            } else {
                assert(self@.contains(Component::Bin));
            }
        }
        r
    }

    /// The panels shown, in the order tree, pie, bin.
    pub fn to_vec(&self) -> (r: Vec<Component>)
        ensures
            r@ == active_order(self@),
    {
        let mut r: Vec<Component> = Vec::new();
        if self.tree {
            r.push(Component::Tree);
        }
        if self.pie {
            r.push(Component::Pie);
        }
        if self.bin {
            r.push(Component::Bin);
        }
        assert(r@ =~= active_order(self@));
        r
    }
}

/// The members of a set of panels, in the order tree, pie, bin.
pub open spec fn active_order(a: Set<Component>) -> Seq<Component> {
    let t: Seq<Component> = if a.contains(Component::Tree) {
        seq![Component::Tree]
    } else {
        Seq::empty()
    };
    let p: Seq<Component> = if a.contains(Component::Pie) {
        seq![Component::Pie]
    } else {
        Seq::empty()
    };
    let b: Seq<Component> = if a.contains(Component::Bin) {
        seq![Component::Bin]
    } else {
        Seq::empty()
    };
    t + p + b
}

/// The panels that a list of names stands for; other names are passed over.
pub open spec fn named_components(names: Seq<Seq<char>>) -> Set<Component> {
    Set::new(|c: Component| exists|i: int| 0 <= i < names.len() && component_named(#[trigger] names[i]) == Some(c))
}

/// The views of a list of strings.
pub open spec fn strings_view(v: Seq<String>) -> Seq<Seq<char>> {
    v.map_values(|s: String| s@)
}

/// What covers the panels, if anything.
#[derive(Clone, Copy, Debug, Default, PartialEq, Eq, Structural)]
pub enum Overlay {
    #[default]
    Hidden,
    Help,
    Confirm(ConfirmKind),
    Alert(AlertKind),
}

/// What a confirmation asks for.
#[derive(Clone, Copy, Debug, PartialEq, Eq, Structural)]
pub enum ConfirmKind {
    Clear,
}

/// What an alert tells.
#[derive(Clone, Copy, Debug, PartialEq, Eq, Structural)]
pub enum AlertKind {
    IncompleteClear,
    ClearEmptyBin,
}

impl Overlay {
    /// Shows an overlay, or hides it when it is the one shown.
    pub fn toggle(&mut self, overlay: Overlay)
        ensures
            *final(self) == if *old(self) == overlay {
                Overlay::Hidden
            } else {
                overlay
            },
    {
        if *self == overlay {
            *self = Overlay::Hidden;
        } else {
            *self = overlay;
        }
    }
}

/// Toggling the same overlay twice from nothing shown leaves nothing shown,
/// and from that overlay shown leaves it shown.
pub proof fn lemma_overlay_toggle_twice(start: Overlay, o: Overlay)
    requires
        start == Overlay::Hidden || start == o,
    ensures
        ({
            let once = if start == o {
                Overlay::Hidden
            } else {
                o
            };
            let twice = if once == o {
                Overlay::Hidden
            } else {
                o
            };
            twice == start
        }),
{
}

/// The whole state of the interface.
pub struct State {
    pub config: StateConfig,
    pub running: bool,
    pub focus: Option<Component>,
    pub active: ActiveSet,
    pub tree: TreeState,
    pub bin: BinState,
    pub overlay: Overlay,
}

/// The paths of the entries a clear takes out of the bin.
pub open spec fn cleared_parts(rows: Seq<BinEntryView>, deleted: Seq<bool>) -> Seq<Seq<Seq<char>>> {
    pick(rows, deleted, true).map_values(|e: BinEntryView| e.path.parts)
}

impl State {
    /// Two states agree on everything but the tree panel.
    pub open spec fn same_but_tree(&self, other: State) -> bool {
        &&& self.config == other.config
        &&& self.running == other.running
        &&& self.focus == other.focus
        &&& self.active == other.active
        &&& self.bin == other.bin
        &&& self.overlay == other.overlay
    }

    /// Two states agree on everything but the tree panel and the focus.
    pub open spec fn same_but_tree_focus(&self, other: State) -> bool {
        &&& self.config == other.config
        &&& self.running == other.running
        &&& self.active == other.active
        &&& self.bin == other.bin
        &&& self.overlay == other.overlay
    }

    /// Two states agree on everything but the bin panel.
    pub open spec fn same_but_bin(&self, other: State) -> bool {
        &&& self.config == other.config
        &&& self.running == other.running
        &&& self.focus == other.focus
        &&& self.active == other.active
        &&& self.tree == other.tree
        &&& self.overlay == other.overlay
    }

    /// The path of the selected entry, when an entry is selected.
    pub open spec fn selected_path(&self) -> Option<PathView> {
        match self.tree.spec_selected_entry() {
            Some(e) => Some(self.tree.path@.joined(e.spec_name())),
            None => None,
        }
    }

    /// What `trash_selected` puts in the bin: the selected entry, with its
    /// path, size and file count, unless its path is in the bin already.
    pub open spec fn trashed(&self, t: FsNode) -> Option<BinEntryView> {
        match self.tree.spec_selected_entry() {
            Some(e) => {
                let p = self.tree.path@.joined(e.spec_name());
                if self.bin.has_path(p) {
                    None
                } else {
                    Some(
                        BinEntryView {
                            path: p,
                            size: size_of(e) as u64,
                            is_dir: e.spec_is_dir(),
                            file_count: file_count(t, p.parts) as u64,
                        },
                    )
                }
            },
            None => None,
        }
    }

    /// `next` is this state with what `trashed` gives put at the end of the
    /// bin and selected there; this state itself when it gives nothing.
    pub open spec fn trashed_into(&self, t: FsNode, next: State) -> bool {
        &&& self.same_but_bin(next)
        &&& match self.trashed(t) {
            Some(v) => {
                &&& next.bin.spec_rows() == self.bin.spec_rows().push(v)
                &&& next.bin.table_state == self.bin.table_state.selecting(
                    Some(self.bin.spec_rows().len() as usize),
                )
                &&& next.bin.table_area == self.bin.table_area
                &&& next.bin.scrollbar_area == self.bin.scrollbar_area
            },
            None => next.bin == self.bin,
        }
    }

    /// `next` is this state with the first bin entry at the selected
    /// entry's path taken out of the bin; this state itself when no entry is
    /// selected.
    pub open spec fn restored_from_tree(&self, next: State) -> bool {
        &&& self.same_but_bin(next)
        &&& match self.selected_path() {
            Some(p) => self.bin.removed_at(index_of_path(self.bin.spec_rows(), p), next.bin),
            None => next.bin == self.bin,
        }
    }

    /// `next` is this state with a panel shown when it was hidden or hidden
    /// when it was shown: a panel shown takes the focus when it takes focus
    /// and no shown panel does; a panel hidden with the focus passes it on
    /// as `focus_next` does, or drops it.
    pub open spec fn toggled(&self, component: Component, next: State) -> bool {
        &&& next.active@ == if self.active@.contains(component) {
            self.active@.remove(component)
        } else {
            self.active@.insert(component)
        }
        &&& next.focus == if self.active@.contains(component) {
            if self.focus == Some(component) {
                next_focus(self.focus, self.active@.remove(component), true)
            } else {
                self.focus
            }
        } else {
            if component.spec_is_interactive() && !(exists|c: Component|
                #[trigger] self.active@.contains(c) && c.spec_is_interactive()) {
                Some(component)
            } else {
                self.focus
            }
        }
        &&& next.config == self.config
        &&& next.running == self.running
        &&& next.tree == self.tree
        &&& next.bin == self.bin
        &&& next.overlay == self.overlay
    }

    /// The counts `trash_selected` adds up fit in a `u64`.
    pub open spec fn trash_fits(&self, t: FsNode) -> bool {
        match self.tree.spec_selected_entry() {
            Some(e) => {
                let p = self.tree.path@.joined(e.spec_name());
                self.bin.has_path(p) || {
                    &&& file_count(t, p.parts) <= u64::MAX
                    &&& self.bin.total_size + size_of(e) <= u64::MAX
                    &&& self.bin.total_files + file_count(t, p.parts) <= u64::MAX
                }
            },
            None => true,
        }
    }

    /// The directory a row leads to: row 0 to the parent of the directory
    /// shown, a directory entry to itself; nothing for other rows.
    pub open spec fn target(&self, idx: usize) -> Option<PathView> {
        if idx == 0 {
            self.tree.path@.parent()
        } else if idx < self.tree.spec_rows().len() && self.tree.spec_rows()[idx as int] is Entry && (
        self.tree.spec_rows()[idx as int]->0).spec_is_dir() {
            Some(self.tree.path@.joined((self.tree.spec_rows()[idx as int]->0).spec_name()))
        } else {
            None
        }
    }

    /// The sizes of the entries of a directory add up within a `u64`, when
    /// the directory has been scanned.
    pub open spec fn shown_fits(t: FsNode, p: PathView) -> bool {
        scanned_path(t, p.parts) ==> size_sum(children_entries(t, p.parts)) <= u64::MAX
    }

    /// `next` is this state with `t`'s entries under the directory shown
    /// read into the tree panel, the first row selected.
    pub open spec fn refreshed(&self, next: State, t: FsNode) -> bool {
        &&& next.wf()
        &&& self.same_but_tree(next)
        &&& next.tree.path == self.tree.path
        &&& next.tree.same_frame(self.tree)
        &&& next.tree.shows(children_entries(t, self.tree.path@.parts))
        &&& next.tree.table_state == self.tree.table_state.selecting(Some(0usize))
    }

    /// `next` is this state moved to the directory `p`: shown from `t` when
    /// `t` has scanned it, else left to a scan, which `r` asks for.
    pub open spec fn navigated(&self, next: State, p: PathView, t: FsNode, r: Option<FsPath>) -> bool {
        &&& next.wf()
        &&& self.same_but_tree(next)
        &&& next.tree.path@ == p
        &&& next.tree.same_frame(self.tree)
        &&& if scanned_path(t, p.parts) {
            &&& r is None
            &&& next.tree.shows(children_entries(t, p.parts))
            &&& next.tree.table_state == self.tree.table_state.selecting(Some(0usize))
        } else {
            &&& r matches Some(q) && q@ == p
            &&& next.tree.rows == self.tree.rows
            &&& next.tree.total_size == self.tree.total_size
            &&& next.tree.table_state == self.tree.table_state
        }
    }

    /// The tree and the bin keep their own rules.
    pub open spec fn wf(&self) -> bool {
        self.tree.wf() && self.bin.wf()
    }

    /// A fresh state for a directory: the panels named in the configuration
    /// shown, the tree focused, the bin empty, no overlay.
    pub fn new(config: StateConfig, dir: FsPath) -> (r: State)
        ensures
            r.wf(),
            r.active@ == named_components(strings_view(config.active@)),
            r.config == config,
            r.running,
            r.focus == Some(Component::Tree),
            r.tree.path == dir,
            r.tree.spec_entries().len() == 0,
            r.tree.table_state == TableState::initial(),
            r.bin.spec_rows().len() == 0,
            r.bin.table_state == TableState::initial(),
            r.overlay == Overlay::Hidden,
    {
        let mut active = ActiveSet::new();
        let mut i: usize = 0;
        let ghost names = strings_view(config.active@);
        while i < config.active.len()
            invariant
                names == strings_view(config.active@),
                i <= config.active.len(),
                active@ == Set::new(
                    |c: Component|
                        exists|j: int| 0 <= j < i && component_named(#[trigger] names[j]) == Some(c),
                ),
            decreases config.active.len() - i,
        {
            let ghost before = active@;
            match Component::from_name(&config.active[i]) {
                Some(c) => {
                    active.insert(c);
                },
                None => {},
            }
            assert(active@ =~= Set::new(
                |c: Component|
                    exists|j: int| 0 <= j < i + 1 && component_named(#[trigger] names[j]) == Some(c),
            )) by {
                assert forall|c: Component| #[trigger] active@.contains(c) implies exists|j: int|
                    0 <= j < i + 1 && component_named(#[trigger] names[j]) == Some(c) by {
                    if !before.contains(c) {
                        assert(component_named(names[i as int]) == Some(c));
                    }
                }
            }
            i = i + 1;
        }
        assert(active@ =~= named_components(names));
        State {
            config,
            running: true,
            focus: Some(Component::Tree),
            active,
            tree: TreeState::new(dir),
            bin: BinState::new(),
            overlay: Overlay::Hidden,
        }
    }

    pub fn focus(&self) -> (r: Option<Component>)
        ensures
            r == self.focus,
    {
        self.focus
    }

    pub fn active(&self) -> (r: &ActiveSet)
        ensures
            *r == self.active,
    {
        &self.active
    }

    /// Writes the names of the panels shown into the configuration, in the
    /// order tree, pie, bin, to be saved.
    pub fn sync_config(&mut self)
        ensures
            strings_view(final(self).config.active@) == active_order(old(self).active@).map_values(
                |c: Component| c.spec_name(),
            ),
            final(self).active == old(self).active,
            final(self).focus == old(self).focus,
            final(self).running == old(self).running,
            final(self).tree == old(self).tree,
            final(self).bin == old(self).bin,
            final(self).overlay == old(self).overlay,
    {
        let shown = self.active.to_vec();
        let mut names: Vec<String> = Vec::new();
        let mut i: usize = 0;
        while i < shown.len()
            invariant
                i <= shown.len(),
                strings_view(names@) == shown@.take(i as int).map_values(|c: Component| c.spec_name()),
            decreases shown.len() - i,
        {
            let ghost before = names@;
            names.push(shown[i].name());
            assert(strings_view(names@) =~= strings_view(before).push(shown@[i as int].spec_name()));
            assert(shown@.take(i + 1) =~= shown@.take(i as int).push(shown@[i as int]));
            i = i + 1;
        }
        assert(shown@.take(i as int) =~= shown@);
        self.config.active = names;
    }

    /// Focuses a panel, when it is shown and takes focus.
    pub fn set_focus(&mut self, component: Component)
        ensures
            final(self).focus == if old(self).active@.contains(component) && component.spec_is_interactive() {
                Some(component)
            } else {
                old(self).focus
            },
            final(self).active == old(self).active,
            final(self).config == old(self).config,
            final(self).running == old(self).running,
            final(self).tree == old(self).tree,
            final(self).bin == old(self).bin,
            final(self).overlay == old(self).overlay,
    {
        if self.active.contains(&component) && component.is_interactive() {
            self.focus = Some(component);
        }
    }

    /// Moves the focus from the tree to the bin or back, when the other is
    /// shown; otherwise drops the focus when `allow_none`, else keeps it.
    pub fn focus_next(&mut self, allow_none: bool)
        ensures
            final(self).focus == next_focus(old(self).focus, old(self).active@, allow_none),
            final(self).active == old(self).active,
            final(self).config == old(self).config,
            final(self).running == old(self).running,
            final(self).tree == old(self).tree,
            final(self).bin == old(self).bin,
            final(self).overlay == old(self).overlay,
    {
        let next = match self.focus {
            Some(Component::Tree) if self.active.contains(&Component::Bin) => Some(Component::Bin),
            Some(Component::Bin) if self.active.contains(&Component::Tree) => Some(Component::Tree),
            _ => {
                if allow_none {
                    None
                } else {
                    return;
                }
            },
        };
        self.focus = next;
    }

    /// Shows a panel that is hidden, focusing it when it takes focus and no
    /// shown panel does; hides a panel that is shown, moving the focus on
    /// (or dropping it) when the panel had it.
    pub fn toggle(&mut self, component: Component)
        ensures
            old(self).toggled(component, *final(self)),
    {
        if !self.active.remove(&component) {
            assert(self.active@ =~= old(self).active@);
            if component.is_interactive() && !self.active.any_interactive() {
                self.focus = Some(component);
            }
            self.active.insert(component);
        } else if self.focus == Some(component) {
            self.focus_next(true);
        }
    }

    /// Reads the entries of the directory shown from the file tree into the
    /// tree panel, largest first, and selects the first row.
    pub fn update_tree(&mut self, fs_tree: &FsTree)
        requires
            old(self).wf(),
            fs_tree.wf(),
            size_sum(children_entries(fs_tree@, old(self).tree.path@.parts)) <= u64::MAX,
        ensures
            old(self).refreshed(*final(self), fs_tree@),
    {
        let ghost want = children_entries(fs_tree@, self.tree.path@.parts);
        let refs = fs_tree.entries_at(&self.tree.path);
        proof {
            assert(refs@.len() == want.len());
            assert(forall|k: int| 0 <= k < refs@.len() ==> *(#[trigger] refs@[k]) == want[k]);
        }
        let mut entries: Vec<FsEntry> = Vec::new();
        let mut i: usize = 0;
        while i < refs.len()
            invariant
                refs@.len() == want.len(),
                forall|k: int| 0 <= k < refs@.len() ==> *(#[trigger] refs@[k]) == want[k],
                i <= refs.len(),
                entries@ == want.take(i as int),
            decreases refs.len() - i,
        {
            entries.push(refs[i].duplicate());
            assert(want.take(i + 1) =~= want.take(i as int).push(want[i as int]));
            i = i + 1;
        }
        assert(want.take(i as int) =~= want);
        self.tree.set_rows(entries);
        self.tree.select_row(Some(0));
    }

    /// Puts the selected entry in the bin, with its path and the number of
    /// files under it; does nothing when no entry is selected or its path is
    /// in the bin already.
    pub fn trash_selected(&mut self, fs_tree: &FsTree)
        requires
            old(self).wf(),
            fs_tree.wf(),
            old(self).trash_fits(fs_tree@),
        ensures
            final(self).wf(),
            old(self).trashed_into(fs_tree@, *final(self)),
    {
        let fs_entry = match self.tree.selected_entry() {
            Some(e) => e,
            None => {
                return;
            },
        };
        let entry_path = self.tree.path.join(fs_entry.name());
        if self.bin.contains_path(&entry_path) {
            return;
        }
        let file_count = fs_tree.count_files(&entry_path);
        let entry = BinEntry::from_entry_at(fs_entry, entry_path, file_count);
        self.bin.push_entry(entry);
    }

    /// Takes the selected entry's path out of the bin; does nothing when no
    /// entry is selected or its path is not in the bin.
    pub fn restore_selected_tree(&mut self)
        requires
            old(self).wf(),
        ensures
            final(self).wf(),
            old(self).restored_from_tree(*final(self)),
    {
        let fs_entry = match self.tree.selected_entry() {
            Some(e) => e,
            None => {
                return;
            },
        };
        let entry_path = self.tree.path.join(fs_entry.name());
        self.bin.restore_by_path(&entry_path);
    }

    /// Finishes a clear of the bin once the deletions were tried:
    /// `deleted[i]` tells whether row `i` was deleted. The deleted entries
    /// leave the bin and the file tree, the tree panel is read anew, and an
    /// alert tells when some entries stayed.
    pub fn clear_bin(&mut self, deleted: &Vec<bool>, fs_tree: &mut FsTree)
        requires
            old(self).wf(),
            old(fs_tree).wf(),
            deleted@.len() == old(self).bin.spec_rows().len(),
            forall|i: int|
                0 <= i < deleted@.len() && deleted@[i] ==> (#[trigger] old(self).bin.spec_rows()[i]).path.parts.len()
                    > 0,
            size_sum(
                children_entries(
                    removed_paths(old(fs_tree)@, cleared_parts(old(self).bin.spec_rows(), deleted@)),
                    old(self).tree.path@.parts,
                ),
            ) <= u64::MAX,
        ensures
            final(self).wf(),
            final(fs_tree).wf(),
            final(fs_tree)@ == removed_paths(old(fs_tree)@, cleared_parts(old(self).bin.spec_rows(), deleted@)),
            final(self).bin.spec_rows() == pick(old(self).bin.spec_rows(), deleted@, false),
            final(self).bin.table_state == old(self).bin.table_state.selecting(Some(0usize)),
            final(self).bin.table_area == old(self).bin.table_area,
            final(self).bin.scrollbar_area == old(self).bin.scrollbar_area,
            final(self).tree.path == old(self).tree.path,
            final(self).tree.same_frame(old(self).tree),
            final(self).tree.shows(children_entries(final(fs_tree)@, old(self).tree.path@.parts)),
            final(self).tree.table_state == old(self).tree.table_state.selecting(Some(0usize)),
            final(self).overlay == if pick(old(self).bin.spec_rows(), deleted@, false).len() == 0 {
                Overlay::Hidden
            } else {
                Overlay::Alert(AlertKind::IncompleteClear)
            },
            final(self).config == old(self).config,
            final(self).running == old(self).running,
            final(self).focus == old(self).focus,
            final(self).active == old(self).active,
    {
        let ghost rows = self.bin.spec_rows();
        let cleared = self.bin.clear(deleted);
        let ghost cv = crate::app::state::bin::rows_view(cleared@);
        proof {
            lemma_pick_all(rows, deleted@, true, |e: BinEntryView| e.path.parts.len() > 0);
        }
        let mut paths: Vec<FsPath> = Vec::new();
        let mut i: usize = 0;
        while i < cleared.len()
            invariant
                cv == crate::app::state::bin::rows_view(cleared@),
                cv == pick(rows, deleted@, true),
                forall|j: int| 0 <= j < cv.len() ==> (#[trigger] cv[j]).path.parts.len() > 0,
                i <= cleared.len(),
                paths@.len() == i,
                forall|j: int| 0 <= j < i ==> (#[trigger] paths@[j])@ == cv[j].path,
            decreases cleared.len() - i,
        {
            paths.push(cleared[i].path.duplicate());
            i = i + 1;
        }
        proof {
            assert(paths_parts(paths@) =~= cleared_parts(rows, deleted@));
            assert forall|j: int| 0 <= j < paths@.len() implies (#[trigger] paths@[j])@.parts.len() > 0 by {
                assert(cv[j].path.parts.len() > 0);
            }
        }
        fs_tree.remove_entries(&paths);
        self.update_tree(fs_tree);
        if self.bin.rows().len() == 0 {
            self.overlay = Overlay::Hidden;
        } else {
            self.overlay = Overlay::Alert(AlertKind::IncompleteClear);
        }
    }

    /// Shows a directory: from the file tree when it has been scanned there,
    /// else returns the path to scan (the rows stay as they were until the
    /// scan is read in).
    pub fn navigate_to(&mut self, path: FsPath, fs_tree: &FsTree) -> (r: Option<FsPath>)
        requires
            old(self).wf(),
            fs_tree.wf(),
            State::shown_fits(fs_tree@, path@),
        ensures
            old(self).navigated(*final(self), path@, fs_tree@, r),
    {
        self.tree.path = path;
        if fs_tree.is_scanned(&self.tree.path) {
            self.update_tree(fs_tree);
            None
        } else {
            Some(self.tree.path.duplicate())
        }
    }

    /// Follows a row of the tree: row 0 leads to the parent directory, a
    /// directory entry into that directory; other rows lead nowhere and
    /// change nothing. Returns the path to scan, if any, as `navigate_to`.
    pub fn navigate_into(&mut self, idx: usize, fs_tree: &FsTree) -> (r: Option<FsPath>)
        requires
            old(self).wf(),
            fs_tree.wf(),
            old(self).target(idx) matches Some(p) ==> State::shown_fits(fs_tree@, p),
        ensures
            match old(self).target(idx) {
                Some(p) => old(self).navigated(*final(self), p, fs_tree@, r),
                None => *final(self) == *old(self) && r is None,
            },
    {
        if idx == 0 {
            self.navigate_up(fs_tree)
        } else {
            self.navigate_down(idx, fs_tree)
        }
    }

    /// The directory a row leads to, as `target` says.
    pub fn target_path(&self, idx: usize) -> (r: Option<FsPath>)
        ensures
            match self.target(idx) {
                Some(p) => r matches Some(q) && q@ == p,
                None => r is None,
            },
    {
        if idx == 0 {
            return self.tree.path.parent();
        }
        if idx < self.tree.rows().len() {
            match &self.tree.rows()[idx] {
                TreeRow::Entry(entry) => {
                    if entry.is_dir() {
                        return Some(self.tree.path.join(entry.name()));
                    }
                },
                TreeRow::Parent => {},
            }
        }
        None
    }

    fn navigate_up(&mut self, fs_tree: &FsTree) -> (r: Option<FsPath>)
        requires
            old(self).wf(),
            fs_tree.wf(),
            old(self).target(0) matches Some(p) ==> State::shown_fits(fs_tree@, p),
        ensures
            match old(self).target(0) {
                Some(p) => old(self).navigated(*final(self), p, fs_tree@, r),
                None => *final(self) == *old(self) && r is None,
            },
    {
        match self.tree.path.parent() {
            Some(parent) => self.navigate_to(parent, fs_tree),
            None => None,
        }
    }

    fn navigate_down(&mut self, index: usize, fs_tree: &FsTree) -> (r: Option<FsPath>)
        requires
            old(self).wf(),
            fs_tree.wf(),
            index > 0,
            old(self).target(index) matches Some(p) ==> State::shown_fits(fs_tree@, p),
        ensures
            match old(self).target(index) {
                Some(p) => old(self).navigated(*final(self), p, fs_tree@, r),
                None => *final(self) == *old(self) && r is None,
            },
    {
        if index < self.tree.rows().len() {
            match &self.tree.rows()[index] {
                TreeRow::Entry(entry) => {
                    if entry.is_dir() {
                        let target = self.tree.path.join(entry.name());
                        return self.navigate_to(target, fs_tree);
                    }
                },
                TreeRow::Parent => {},
            }
        }
        None
    }

    /// Whether the sizes of the entries of a directory of the file tree
    /// add up within a `u64`.
    pub fn entries_size_fits(fs_tree: &FsTree, path: &FsPath) -> (r: bool)
        requires
            fs_tree.wf(),
        ensures
            r == (size_sum(children_entries(fs_tree@, path@.parts)) <= u64::MAX),
    {
        let ghost want = children_entries(fs_tree@, path@.parts);
        let refs = fs_tree.entries_at(path);
        proof {
            assert(refs@.len() == want.len());
        }
        let mut total: u64 = 0;
        let mut i: usize = 0;
        proof {
            assert(want.take(0) =~= Seq::<FsEntry>::empty());
        }
        while i < refs.len()
            invariant
                want == children_entries(fs_tree@, path@.parts),
                refs@.len() == want.len(),
                forall|k: int| 0 <= k < refs@.len() ==> *(#[trigger] refs@[k]) == want[k],
                i <= refs.len(),
                total == size_sum(want.take(i as int)),
            decreases refs.len() - i,
        {
            let add: u64 = match refs[i].size() {
                Some(s) => s,
                None => 0,
            };
            proof {
                assert(want.take(i + 1).drop_last() =~= want.take(i as int));
                assert(want.take(i + 1).last() == want[i as int]);
            }
            match total.checked_add(add) {
                Some(t) => {
                    total = t;
                },
                None => {
                    proof {
                        assert(*refs@[i as int] == want[i as int]);
                        assert(add as nat == size_of(want[i as int]));
                        assert(size_sum(want.take(i + 1)) == total + add);
                        crate::app::tui::lemma_size_sum_prefix(want, i + 1);
                        assert(total + add > u64::MAX);
                        assert(size_sum(want) > u64::MAX);
                    }
                    return false;
                },
            }
            i = i + 1;
        }
        proof {
            assert(want.take(i as int) =~= want);
        }
        true
    }

    /// Whether the counts `trash_selected` adds up fit in a `u64`.
    pub fn trash_fits_check(&self, fs_tree: &FsTree) -> (r: bool)
        requires
            self.wf(),
            fs_tree.wf(),
        ensures
            r == self.trash_fits(fs_tree@),
    {
        let fs_entry = match self.tree.selected_entry() {
            Some(e) => e,
            None => {
                return true;
            },
        };
        let entry_path = self.tree.path.join(fs_entry.name());
        if self.bin.contains_path(&entry_path) {
            return true;
        }
        let count = match fs_tree.count_files_checked(&entry_path) {
            Some(c) => c,
            None => {
                return false;
            },
        };
        let size: u64 = match fs_entry.size() {
            Some(s) => s,
            None => 0,
        };
        self.bin.total_size.checked_add(size).is_some() && self.bin.total_files.checked_add(count).is_some()
    }

    /// Asks to confirm the clearing of the bin, or tells that there is
    /// nothing to clear.
    pub fn confirm_clear(&mut self)
        ensures
            final(self).overlay == if old(self).bin.spec_rows().len() == 0 {
                Overlay::Alert(AlertKind::ClearEmptyBin)
            } else {
                Overlay::Confirm(ConfirmKind::Clear)
            },
            final(self).active == old(self).active,
            final(self).focus == old(self).focus,
            final(self).config == old(self).config,
            final(self).running == old(self).running,
            final(self).tree == old(self).tree,
            final(self).bin == old(self).bin,
    {
        if self.bin.rows().len() == 0 {
            self.overlay = Overlay::Alert(AlertKind::ClearEmptyBin);
        } else {
            self.overlay = Overlay::Confirm(ConfirmKind::Clear);
        }
    }
}

/// Where the focus moves from the tree or the bin.
pub open spec fn next_focus(focus: Option<Component>, active: Set<Component>, allow_none: bool) -> Option<Component> {
    match focus {
        Some(Component::Tree) if active.contains(Component::Bin) => Some(Component::Bin),
        Some(Component::Bin) if active.contains(Component::Tree) => Some(Component::Tree),
        _ => if allow_none {
            None
        } else {
            focus
        },
    }
}

/// From the bin the focus passes to the tree, and from the tree to the bin,
/// whenever that panel is shown, whether or not the focus may be left
/// empty; otherwise it stays, or is emptied where that is allowed.
pub proof fn lemma_next_focus(focus: Option<Component>, active: Set<Component>, allow_none: bool)
    ensures
        focus == Some(Component::Bin) && active.contains(Component::Tree) ==> next_focus(focus, active, allow_none)
            == Some(Component::Tree),
        focus == Some(Component::Tree) && active.contains(Component::Bin) ==> next_focus(focus, active, allow_none)
            == Some(Component::Bin),
        !(focus == Some(Component::Bin) && active.contains(Component::Tree)) && !(focus == Some(Component::Tree)
            && active.contains(Component::Bin)) ==> next_focus(focus, active, allow_none) == if allow_none {
            None
        } else {
            focus
        },
{
}

/// Hiding the focused panel hands the focus to the other of the tree and
/// the bin when it is shown, and leaves no focus otherwise; hiding another
/// panel keeps the focus.
pub proof fn lemma_hide_focused(s: State, c: Component, next: State)
    requires
        s.toggled(c, next),
        s.active@.contains(c),
    ensures
        !next.active@.contains(c),
        s.focus == Some(c) && c == Component::Bin && s.active@.contains(Component::Tree) ==> next.focus == Some(
            Component::Tree,
        ),
        s.focus == Some(c) && c == Component::Tree && s.active@.contains(Component::Bin) ==> next.focus == Some(
            Component::Bin,
        ),
        s.focus == Some(c) && !(c == Component::Bin && s.active@.contains(Component::Tree)) && !(c
            == Component::Tree && s.active@.contains(Component::Bin)) ==> next.focus is None,
        s.focus != Some(c) ==> next.focus == s.focus,
{
}

/// Toggling a panel twice gives back the panels shown.
pub proof fn lemma_toggle_twice(s: State, c: Component, s2: State, s3: State)
    requires
        s.toggled(c, s2),
        s2.toggled(c, s3),
    ensures
        s3.active@ == s.active@,
{
    if s.active@.contains(c) {
        assert(s3.active@ =~= s.active@);
    } else {
        assert(s3.active@ =~= s.active@);
    }
}

/// Putting the selected entry in the bin and taking it back out gives back
/// the bin's rows, when the entry was not in the bin and the selection did
/// not move in between.
pub proof fn lemma_trash_then_restore(s: State, t: FsNode, s2: State, s3: State)
    requires
        s.trashed(t) is Some,
        s.trashed_into(t, s2),
        s2.restored_from_tree(s3),
    ensures
        s3.bin.spec_rows() == s.bin.spec_rows(),
{
    let v = s.trashed(t)->0;
    let p = s.selected_path()->0;
    assert(v.path == p);
    assert(s2.selected_path() == s.selected_path());
    crate::app::state::bin::lemma_index_of_pushed_path(s.bin.spec_rows(), v);
    crate::app::state::bin::lemma_push_then_remove(s.bin.spec_rows(), v);
}

/// No path is in the bin twice.
pub open spec fn distinct_paths(rows: Seq<BinEntryView>) -> bool {
    forall|i: int, k: int| 0 <= i < k < rows.len() ==> (#[trigger] rows[i]).path != (#[trigger] rows[k]).path
}

/// Putting the selected entry in the bin never puts a path in it twice.
pub proof fn lemma_trash_keeps_paths_distinct(s: State, t: FsNode, s2: State)
    requires
        distinct_paths(s.bin.spec_rows()),
        s.trashed_into(t, s2),
    ensures
        distinct_paths(s2.bin.spec_rows()),
{
    if let Some(v) = s.trashed(t) {
        let rows = s.bin.spec_rows();
        let rows2 = rows.push(v);
        assert forall|i: int, k: int| 0 <= i < k < rows2.len() implies (#[trigger] rows2[i]).path != (
        #[trigger] rows2[k]).path by {
            if k == rows.len() {
                assert(rows2[i] == rows[i]);
                assert(!s.bin.has_path(v.path));
            } else {
                assert(rows2[i] == rows[i] && rows2[k] == rows[k]);
            }
        }
    }
}

/// Moving the focus on never lands on a hidden panel.
pub proof fn lemma_focus_next_shown(focus: Option<Component>, active: Set<Component>, allow_none: bool)
    ensures
        next_focus(focus, active, allow_none) matches Some(c) ==> (active.contains(c) || next_focus(
            focus,
            active,
            allow_none,
        ) == focus),
{
}

/// The panels shown survive a save and a load of the configuration.
pub proof fn lemma_active_round_trip(active: Set<Component>)
    requires
        active.subset_of(set![Component::Tree, Component::Pie, Component::Bin]),
    ensures
        named_components(active_order(active).map_values(|c: Component| c.spec_name())) == active,
{
    lemma_names_distinct();
    let names = active_order(active).map_values(|c: Component| c.spec_name());
    assert forall|c: Component| #[trigger] active.contains(c) implies named_components(names).contains(c) by {
        let k = active_order(active).index_of(c);
        assert(active_order(active).contains(c)) by {
            match c {
                Component::Tree => {
                    assert(active_order(active)[0] == c);
                },
                Component::Pie => {
                    if active.contains(Component::Tree) {
                        assert(active_order(active)[1] == c);
                    } else {
                        assert(active_order(active)[0] == c);
                    }
                },
                Component::Bin => {
                    let n = active_order(active).len() - 1;
                    assert(active_order(active)[n] == c);
                },
            }
        }
        let j = choose|j: int| 0 <= j < active_order(active).len() && active_order(active)[j] == c;
        assert(component_named(names[j]) == Some(c));
    }
    assert forall|c: Component| #[trigger] named_components(names).contains(c) implies active.contains(c) by {
        let j = choose|j: int| 0 <= j < names.len() && component_named(#[trigger] names[j]) == Some(c);
        let d = active_order(active)[j];
        assert(names[j] == d.spec_name());
        assert(active.contains(d));
        assert(d == c);
    }
    assert(named_components(names) =~= active);
}

} // verus!
