use crate::app::command::{BinCommand, Command, TreeCommand};
use crate::app::state::bin::as_index;
use crate::app::state::{next_focus, AlertKind, Component, ConfirmKind, Overlay, State};
use crate::fs::model::FsNode;
use crate::fs::path::FsPath;
use crate::fs::tree::FsTree;
use vstd::prelude::*;

verus! {

/// What is left to the caller once a command is handled.
#[derive(Debug)]
pub enum Effect {
    /// Nothing more to do.
    Done,
    /// Scan a directory, then read it into the tree panel.
    Scan(FsPath),
    /// Delete the entries of the bin, then finish with `State::clear_bin`.
    DeleteBin,
}

/// The path a `Scan` asks for, if any.
pub open spec fn scan_of(e: Effect) -> Option<FsPath> {
    match e {
        Effect::Scan(p) => Some(p),
        _ => None,
    }
}

/// The arithmetic of handling a command stays within its types, and a bin
/// row to restore exists.
pub open spec fn command_fits(s: State, t: FsNode, command: Command, scanning: bool) -> bool {
    match command {
        Command::Tree(c) => !scanning ==> match c {
            TreeCommand::Trash => s.trash_fits(t),
            TreeCommand::Enter(Some(i)) => s.target(i) matches Some(p) ==> State::shown_fits(t, p),
            _ => true,
        },
        Command::Bin(BinCommand::Restore) => s.bin.table_state.spec_selected() matches Some(i) ==> i
            < s.bin.spec_rows().len(),
        _ => true,
    }
}

/// Whether `handle_command` can take a command: the sums it makes fit in a
/// `u64`, and a bin row to restore exists.
pub fn command_fits_check(state: &State, command: Command, fs_tree: &FsTree, scanning: bool) -> (r: bool)
    requires
        state.wf(),
        fs_tree.wf(),
    ensures
        r == command_fits(*state, fs_tree@, command, scanning),
{
    match command {
        Command::Tree(c) => {
            if scanning {
                return true;
            }
            match c {
                TreeCommand::Trash => state.trash_fits_check(fs_tree),
                TreeCommand::Enter(Some(i)) => match state.target_path(i) {
                    Some(p) => !fs_tree.is_scanned(&p) || State::entries_size_fits(fs_tree, &p),
                    None => true,
                },
                _ => true,
            }
        },
        Command::Bin(BinCommand::Restore) => match state.bin.table_state.selected() {
            Some(i) => i < state.bin.rows.len(),
            None => true,
        },
        _ => true,
    }
}

/// What handling a command does: `next` is the state after it and `r` what
/// is left to the caller. Requests to the tree are ignored while a scan
/// runs.
pub open spec fn handled(s: State, command: Command, t: FsNode, scanning: bool, r: Effect, next: State) -> bool {
    match command {
        Command::Quit => next == (State { running: false, ..s }) && r is Done,
        Command::Help => next == (State {
            overlay: if s.overlay == Overlay::Help {
                Overlay::Hidden
            } else {
                Overlay::Help
            },
            ..s
        }) && r is Done,
        Command::FocusNext => next == (State { focus: next_focus(s.focus, s.active@, false), ..s })
            && r is Done,
        Command::HideOverlay => next == (State { overlay: Overlay::Hidden, ..s }) && r is Done,
        Command::Toggle(c) => s.toggled(c, next) && r is Done,
        Command::Tree(c) => if scanning {
            next == s && r is Done
        } else {
            match c {
                TreeCommand::Up => s.same_but_tree(next) && s.tree.selects(Some(s.tree.previous_row()), next.tree)
                    && r is Done,
                TreeCommand::Down => s.same_but_tree(next) && s.tree.selects(Some(s.tree.next_row()), next.tree)
                    && r is Done,
                TreeCommand::Select(i) => s.same_but_tree(next) && s.tree.selects(Some(i), next.tree)
                    && r is Done,
                TreeCommand::ScrollTo(i) => s.same_but_tree(next) && s.tree.selects(Some(i), next.tree)
                    && r is Done,
                TreeCommand::Enter(None) => next == s && r is Done,
                TreeCommand::Enter(Some(i)) => match s.target(i) {
                    Some(p) => s.navigated(next, p, t, scan_of(r)) && !(r is DeleteBin),
                    None => next == s && r is Done,
                },
                TreeCommand::Trash => s.trashed_into(t, next) && r is Done,
                TreeCommand::Restore => s.restored_from_tree(next) && r is Done,
            }
        },
        Command::Bin(c) => match c {
            BinCommand::Up => s.same_but_bin(next) && s.bin.selects(Some(s.bin.previous_row()), next.bin)
                && r is Done,
            BinCommand::Down => s.same_but_bin(next) && s.bin.selects(Some(s.bin.next_row()), next.bin)
                && r is Done,
            BinCommand::Select(i) => s.same_but_bin(next) && s.bin.selects(Some(i), next.bin) && r is Done,
            BinCommand::ScrollTo(i) => s.same_but_bin(next) && s.bin.selects(Some(i), next.bin) && r is Done,
            BinCommand::Restore => s.same_but_bin(next) && s.bin.removed_at(
                as_index(s.bin.table_state.spec_selected()),
                next.bin,
            ) && r is Done,
            BinCommand::Clear => next == (State {
                overlay: if s.bin.spec_rows().len() == 0 {
                    Overlay::Alert(AlertKind::ClearEmptyBin)
                } else {
                    Overlay::Confirm(ConfirmKind::Clear)
                },
                ..s
            }) && r is Done,
            BinCommand::ClearConfirmed => next == s && r is DeleteBin,
        },
        Command::Nothing => next == s && r is Done,
    }
}

/// Carries out a command on the state; `scanning` tells whether a scan is
/// running. What needs the file system is left to the caller, as the
/// result says.
pub fn handle_command(state: &mut State, command: Command, fs_tree: &FsTree, scanning: bool) -> (r: Effect)
    requires
        old(state).wf(),
        fs_tree.wf(),
        command_fits(*old(state), fs_tree@, command, scanning),
    ensures
        final(state).wf(),
        handled(*old(state), command, fs_tree@, scanning, r, *final(state)),
{
    match command {
        Command::Quit => {
            state.running = false;
            Effect::Done
        },
        Command::Help => {
            state.overlay.toggle(Overlay::Help);
            Effect::Done
        },
        Command::FocusNext => {
            state.focus_next(false);
            Effect::Done
        },
        Command::HideOverlay => {
            state.overlay = Overlay::Hidden;
            Effect::Done
        },
        Command::Toggle(c) => {
            state.toggle(c);
            Effect::Done
        },
        Command::Tree(c) => handle_tree(state, c, fs_tree, scanning),
        Command::Bin(c) => handle_bin(state, c),
        Command::Nothing => Effect::Done,
    }
}

pub fn handle_tree(state: &mut State, command: TreeCommand, fs_tree: &FsTree, scanning: bool) -> (r: Effect)
    requires
        old(state).wf(),
        fs_tree.wf(),
        command_fits(*old(state), fs_tree@, Command::Tree(command), scanning),
    ensures
        final(state).wf(),
        handled(*old(state), Command::Tree(command), fs_tree@, scanning, r, *final(state)),
{
    if scanning {
        return Effect::Done;
    }
    match command {
        TreeCommand::Up => {
            state.tree.select_previous_row();
            Effect::Done
        },
        TreeCommand::Down => {
            state.tree.select_next_row();
            Effect::Done
        },
        TreeCommand::Select(idx) => {
            state.tree.select_row(Some(idx));
            Effect::Done
        },
        TreeCommand::ScrollTo(idx) => {
            state.tree.select_row(Some(idx));
            Effect::Done
        },
        TreeCommand::Enter(idx) => match idx {
            Some(i) => match state.navigate_into(i, fs_tree) {
                Some(path) => Effect::Scan(path),
                None => Effect::Done,
            },
            None => Effect::Done,
        },
        TreeCommand::Trash => {
            state.trash_selected(fs_tree);
            Effect::Done
        },
        TreeCommand::Restore => {
            state.restore_selected_tree();
            Effect::Done
        },
    }
}

pub fn handle_bin(state: &mut State, command: BinCommand) -> (r: Effect)
    requires
        old(state).wf(),
        command is Restore ==> (old(state).bin.table_state.spec_selected() matches Some(i) ==> i
            < old(state).bin.spec_rows().len()),
    ensures
        final(state).wf(),
        forall|t: FsNode, scanning: bool| handled(*old(state), Command::Bin(command), t, scanning, r, *final(state)),
{
    match command {
        BinCommand::Up => {
            state.bin.select_previous_row();
            Effect::Done
        },
        BinCommand::Down => {
            state.bin.select_next_row();
            Effect::Done
        },
        BinCommand::Select(idx) => {
            state.bin.select_row(Some(idx));
            Effect::Done
        },
        BinCommand::ScrollTo(idx) => {
            state.bin.select_row(Some(idx));
            Effect::Done
        },
        BinCommand::Restore => {
            state.bin.restore_selected();
            Effect::Done
        },
        BinCommand::Clear => {
            state.confirm_clear();
            Effect::Done
        },
        BinCommand::ClearConfirmed => Effect::DeleteBin,
    }
}

/// While a scan runs, a request to the tree changes nothing and asks for
/// nothing.
pub proof fn lemma_scan_ignores_tree(s: State, c: TreeCommand, t: FsNode, r: Effect, next: State)
    requires
        handled(s, Command::Tree(c), t, true, r, next),
    ensures
        next == s,
        r is Done,
{
}

/// Up in the tree, outside a scan, selects the row before the selected one
/// (staying on the first row), or the first row when none is selected; it
/// never selects a later row, and changes nothing but the selection.
pub proof fn lemma_tree_up(s: State, t: FsNode, r: Effect, next: State)
    requires
        handled(s, Command::Tree(TreeCommand::Up), t, false, r, next),
    ensures
        next.tree.spec_rows() == s.tree.spec_rows(),
        next.tree.path == s.tree.path,
        next.bin == s.bin,
        next.focus == s.focus,
        next.overlay == s.overlay,
        r is Done,
        s.tree.table_state.spec_selected() matches Some(i) ==> i < s.tree.spec_rows().len() ==> next.tree.table_state.spec_selected()
            == Some(if i == 0 { 0usize } else { (i - 1) as usize }),
        s.tree.table_state.spec_selected() is None && s.tree.spec_rows().len() > 0
            ==> next.tree.table_state.spec_selected() == Some(0usize),
        next.tree.table_state.spec_selected() matches Some(k) ==> (s.tree.table_state.spec_selected() matches Some(
            i,
        ) ==> k <= i),
{
    s.tree.table_state.lemma_selecting(Some(s.tree.previous_row()));
}

/// Down in the tree, outside a scan, selects the row after the selected one
/// when there is one, or the second row when none is selected; it never
/// selects an earlier row, and changes nothing but the selection.
pub proof fn lemma_tree_down(s: State, t: FsNode, r: Effect, next: State)
    requires
        handled(s, Command::Tree(TreeCommand::Down), t, false, r, next),
        s.tree.spec_rows().len() <= usize::MAX,
    ensures
        next.tree.spec_rows() == s.tree.spec_rows(),
        next.tree.path == s.tree.path,
        next.bin == s.bin,
        next.focus == s.focus,
        next.overlay == s.overlay,
        r is Done,
        s.tree.table_state.spec_selected() matches Some(i) ==> (i + 1 < s.tree.spec_rows().len()
            ==> next.tree.table_state.spec_selected() == Some((i + 1) as usize)),
        s.tree.table_state.spec_selected() matches Some(i) ==> (i + 1 >= s.tree.spec_rows().len()
            ==> next.tree.table_state == s.tree.table_state),
        s.tree.table_state.spec_selected() is None && s.tree.spec_rows().len() > 1
            ==> next.tree.table_state.spec_selected() == Some(1usize),
        next.tree.table_state.spec_selected() matches Some(k) ==> (s.tree.table_state.spec_selected() matches Some(
            i,
        ) ==> k >= i),
{
    s.tree.table_state.lemma_selecting(Some(s.tree.next_row()));
    if let Some(i) = s.tree.table_state.spec_selected() {
        if i + 1 < s.tree.spec_rows().len() {
            assert(s.tree.next_row() == i + 1);
        }
    }
}

/// Up in the bin selects the row before the selected one (staying on the
/// first), and never a later row; nothing but the bin's selection changes.
pub proof fn lemma_bin_up(s: State, t: FsNode, scanning: bool, r: Effect, next: State)
    requires
        handled(s, Command::Bin(BinCommand::Up), t, scanning, r, next),
    ensures
        next.bin.spec_rows() == s.bin.spec_rows(),
        next.tree == s.tree,
        next.focus == s.focus,
        r is Done,
        s.bin.table_state.spec_selected() matches Some(i) ==> i < s.bin.spec_rows().len() ==> next.bin.table_state.spec_selected()
            == Some(if i == 0 { 0usize } else { (i - 1) as usize }),
        next.bin.table_state.spec_selected() matches Some(k) ==> (s.bin.table_state.spec_selected() matches Some(
            i,
        ) ==> k <= i),
{
    s.bin.table_state.lemma_selecting(Some(s.bin.previous_row()));
}

/// Down in the bin selects the row after the selected one when there is
/// one, and never an earlier row; nothing but the bin's selection changes.
pub proof fn lemma_bin_down(s: State, t: FsNode, scanning: bool, r: Effect, next: State)
    requires
        handled(s, Command::Bin(BinCommand::Down), t, scanning, r, next),
        s.bin.spec_rows().len() <= usize::MAX,
    ensures
        next.bin.spec_rows() == s.bin.spec_rows(),
        next.tree == s.tree,
        next.focus == s.focus,
        r is Done,
        s.bin.table_state.spec_selected() matches Some(i) ==> (i + 1 < s.bin.spec_rows().len()
            ==> next.bin.table_state.spec_selected() == Some((i + 1) as usize)),
        next.bin.table_state.spec_selected() matches Some(k) ==> (s.bin.table_state.spec_selected() matches Some(
            i,
        ) ==> k >= i),
{
    s.bin.table_state.lemma_selecting(Some(s.bin.next_row()));
    if let Some(i) = s.bin.table_state.spec_selected() {
        if i + 1 < s.bin.spec_rows().len() {
            assert(s.bin.next_row() == i + 1);
        }
    }
}

/// Tab moves the focus from the tree to the bin and from the bin to the
/// tree when the other panel is shown, and leaves it where it is otherwise.
pub proof fn lemma_focus_next_command(s: State, t: FsNode, scanning: bool, r: Effect, next: State)
    requires
        handled(s, Command::FocusNext, t, scanning, r, next),
    ensures
        s.focus == Some(Component::Tree) && s.active@.contains(Component::Bin) ==> next.focus == Some(
            Component::Bin,
        ),
        s.focus == Some(Component::Bin) && s.active@.contains(Component::Tree) ==> next.focus == Some(
            Component::Tree,
        ),
        !(s.focus == Some(Component::Tree) && s.active@.contains(Component::Bin)) && !(s.focus == Some(
            Component::Bin,
        ) && s.active@.contains(Component::Tree)) ==> next.focus == s.focus,
        next.active == s.active,
        next.tree == s.tree,
        next.bin == s.bin,
{
}

} // verus!
