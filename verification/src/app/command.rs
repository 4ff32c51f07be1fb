use crate::app::state::{AlertKind, Component, ConfirmKind, Overlay, State};
use crate::app::state::tree::TreeState;
use crate::app::table::Area;
use vstd::prelude::*;

verus! {

/// How long two clicks on one row may lie apart to count as a double click,
/// in milliseconds.
pub const DOUBLE_CLICK_MS: u64 = 400;

/// A key, as far as the commands tell keys apart.
#[derive(Clone, Copy, Debug, PartialEq, Eq, Structural)]
pub enum Key {
    Char(char),
    F(u8),
    Tab,
    Up,
    Down,
    Enter,
    Esc,
    Other,
}

/// A key event: the key, whether it is a press (not a release or a
/// repeat), and whether Control was held.
#[derive(Clone, Copy, Debug, PartialEq, Eq, Structural)]
pub struct KeyInput {
    pub code: Key,
    pub press: bool,
    pub ctrl: bool,
}

/// A mouse action, as far as the commands tell them apart.
#[derive(Clone, Copy, Debug, PartialEq, Eq, Structural)]
pub enum MouseKind {
    LeftDown,
    LeftDrag,
    ScrollUp,
    ScrollDown,
    Other,
}

/// A mouse event and the cell it happened on.
#[derive(Clone, Copy, Debug, PartialEq, Eq, Structural)]
pub struct MouseInput {
    pub kind: MouseKind,
    pub column: u16,
    pub row: u16,
}

/// An event of the terminal.
#[derive(Clone, Copy, Debug, PartialEq, Eq, Structural)]
pub enum Input {
    Key(KeyInput),
    Mouse(MouseInput),
    Other,
}

/// What the user asked for.
#[derive(Clone, Copy, Debug, PartialEq, Eq, Structural)]
pub enum Command {
    Quit,
    Help,
    FocusNext,
    HideOverlay,
    Toggle(Component),
    Tree(TreeCommand),
    Bin(BinCommand),
    Nothing,
}

/// A request to the tree panel.
#[derive(Clone, Copy, Debug, PartialEq, Eq, Structural)]
pub enum TreeCommand {
    Up,
    Down,
    Select(usize),
    ScrollTo(usize),
    Enter(Option<usize>),
    Trash,
    Restore,
}

/// A request to the bin panel.
#[derive(Clone, Copy, Debug, PartialEq, Eq, Structural)]
pub enum BinCommand {
    Up,
    Down,
    Select(usize),
    ScrollTo(usize),
    Restore,
    Clear,
    ClearConfirmed,
}

/// The command a key press asks for, given the overlay, the focus and the
/// row selected in the tree.
pub open spec fn key_command(
    code: Key,
    ctrl: bool,
    overlay: Overlay,
    focus: Option<Component>,
    tree_selected: Option<usize>,
) -> Command {
    match overlay {
        Overlay::Confirm(ConfirmKind::Clear) => match code {
            Key::Char(c) if c == 'y' || c == 'Y' => Command::Bin(BinCommand::ClearConfirmed),
            Key::Char(c) if c == 'n' || c == 'N' => Command::HideOverlay,
            Key::Esc => Command::HideOverlay,
            _ => Command::Nothing,
        },
        Overlay::Alert(AlertKind::IncompleteClear) => match code {
            Key::Enter | Key::Esc => Command::HideOverlay,
            _ => Command::Nothing,
        },
        Overlay::Alert(AlertKind::ClearEmptyBin) => match code {
            Key::Enter => Command::HideOverlay,
            _ => free_key_command(code, ctrl, focus, tree_selected),
        },
        _ => free_key_command(code, ctrl, focus, tree_selected),
    }
}

/// The command a key press asks for where no overlay holds the keys: the
/// key table, by the focus and the row selected in the tree.
pub open spec fn free_key_command(code: Key, ctrl: bool, focus: Option<Component>, tree_selected: Option<usize>) -> Command {
    match code {
            Key::Char(c) if c == 'q' || c == 'Q' => Command::Quit,
            Key::Char(c) if c == 'c' && ctrl => Command::Quit,
            Key::F(n) if n == 1 => Command::Help,
            Key::Char(c) if c == 'h' || c == 'H' => Command::Help,
            Key::Tab => Command::FocusNext,
            Key::Char(c) if c == '1' => Command::Toggle(Component::Tree),
            Key::Char(c) if c == '2' => Command::Toggle(Component::Pie),
            Key::Char(c) if c == '3' => Command::Toggle(Component::Bin),
            Key::Up => up_command(focus),
            Key::Char(c) if c == 'w' || c == 'W' || c == 'k' || c == 'K' => up_command(focus),
            Key::Down => down_command(focus),
            Key::Char(c) if c == 's' || c == 'S' || c == 'j' || c == 'J' => down_command(focus),
            Key::Enter => match focus {
                Some(Component::Tree) => Command::Tree(TreeCommand::Enter(tree_selected)),
                _ => Command::Nothing,
            },
            Key::Char(c) if c == 't' || c == 'T' => match focus {
                Some(Component::Tree) => Command::Tree(TreeCommand::Trash),
                _ => Command::Nothing,
            },
            Key::Char(c) if c == 'r' || c == 'R' => match focus {
                Some(Component::Tree) => Command::Tree(TreeCommand::Restore),
                Some(Component::Bin) => Command::Bin(BinCommand::Restore),
                _ => Command::Nothing,
            },
            Key::Char(c) if c == 'c' || c == 'C' => match focus {
                Some(Component::Tree) | Some(Component::Bin) => Command::Bin(BinCommand::Clear),
                _ => Command::Nothing,
            },
            _ => Command::Nothing,
    }
}

/// Moving up in the focused panel.
pub open spec fn up_command(focus: Option<Component>) -> Command {
    match focus {
        Some(Component::Tree) => Command::Tree(TreeCommand::Up),
        Some(Component::Bin) => Command::Bin(BinCommand::Up),
        _ => Command::Nothing,
    }
}

/// Moving down in the focused panel.
pub open spec fn down_command(focus: Option<Component>) -> Command {
    match focus {
        Some(Component::Tree) => Command::Tree(TreeCommand::Down),
        Some(Component::Bin) => Command::Bin(BinCommand::Down),
        _ => Command::Nothing,
    }
}

/// The row of a list a click on its scroll bar stands for: the bar is the
/// first column of the area, and its height spans all the rows.
pub open spec fn scrollbar_target(area: Area, len: usize, col: u16, row: u16) -> Option<usize> {
    if len == 0 || col != area.x || row < area.y || row >= area.spec_bottom() {
        None
    } else {
        Some((((row - area.y) * len) / (area.height as int)) as usize)
    }
}

/// The arithmetic of `scrollbar_target` stays within a `usize`.
pub open spec fn scrollbar_fits(area: Area, len: usize, col: u16, row: u16) -> bool {
    (len == 0 || col != area.x || row < area.y || row >= area.spec_bottom()) || (row - area.y) * len
        <= usize::MAX
}

/// The row of a list a click in its area stands for: the first line of the
/// area is the header, the rows follow from `offset` on.
pub open spec fn list_target(area: Area, offset: usize, len: usize, col: u16, row: u16) -> Option<usize> {
    let content_top = area.y + 1;
    if col < area.x || col >= area.spec_right() || row < content_top || row >= area.spec_bottom() {
        None
    } else if offset + (row - content_top) < len {
        Some((offset + (row - content_top)) as usize)
    } else {
        None
    }
}

/// The arithmetic of `list_target` stays within its types.
pub open spec fn list_fits(area: Area, offset: usize, col: u16, row: u16) -> bool {
    &&& area.y < u16::MAX
    &&& (col < area.x || col >= area.spec_right() || row < area.y + 1 || row >= area.spec_bottom())
        || offset + (row - (area.y + 1)) <= usize::MAX
}

/// Whether a click on a row follows the last click on that same row soon
/// enough to open it.
pub open spec fn is_double_click(last: Option<(usize, u64)>, idx: usize, now_ms: u64) -> bool {
    match last {
        Some((last_idx, t)) => last_idx == idx && (if now_ms >= t {
            now_ms - t
        } else {
            0
        }) < DOUBLE_CLICK_MS,
        None => false,
    }
}

/// The arithmetic of a click on the tree at a cell stays within its types.
pub open spec fn tree_click_fits(t: TreeState, col: u16, row: u16) -> bool {
    let len = t.spec_rows().len() as usize;
    &&& scrollbar_fits(t.scrollbar_area, len, col, row)
    &&& scrollbar_target(t.scrollbar_area, len, col, row) is None ==> list_fits(
        t.table_area,
        t.table_state.spec_offset(),
        col,
        row,
    )
}

/// The arithmetic of a click on the bin at a cell stays within its types.
pub open spec fn bin_click_fits(s: State, col: u16, row: u16) -> bool {
    let len = s.bin.spec_rows().len() as usize;
    &&& scrollbar_fits(s.bin.scrollbar_area, len, col, row)
    &&& scrollbar_target(s.bin.scrollbar_area, len, col, row) is None ==> list_fits(
        s.bin.table_area,
        s.bin.table_state.spec_offset(),
        col,
        row,
    )
}

/// What a click on the tree at a cell does, when it hits the tree: the
/// command, and the last click remembered afterwards.
pub open spec fn tree_click(t: TreeState, col: u16, row: u16, now_ms: u64) -> Option<(TreeCommand, Option<(usize, u64)>)> {
    let len = t.spec_rows().len() as usize;
    match scrollbar_target(t.scrollbar_area, len, col, row) {
        Some(i) => Some((TreeCommand::ScrollTo(i), t.last_click)),
        None => match list_target(t.table_area, t.table_state.spec_offset(), len, col, row) {
            Some(idx) => if is_double_click(t.last_click, idx, now_ms) {
                Some((TreeCommand::Enter(Some(idx)), None))
            } else {
                Some((TreeCommand::Select(idx), Some((idx, now_ms))))
            },
            None => None,
        },
    }
}

/// What a click on the bin at a cell asks for, when it hits the bin.
pub open spec fn bin_click(s: State, col: u16, row: u16) -> Option<BinCommand> {
    let len = s.bin.spec_rows().len() as usize;
    match scrollbar_target(s.bin.scrollbar_area, len, col, row) {
        Some(i) => Some(BinCommand::ScrollTo(i)),
        None => match list_target(s.bin.table_area, s.bin.table_state.spec_offset(), len, col, row) {
            Some(idx) => Some(BinCommand::Select(idx)),
            None => None,
        },
    }
}

/// The arithmetic of reading a mouse event stays within its types.
pub open spec fn mouse_fits(s: State, ev: MouseInput) -> bool {
    (ev.kind is LeftDown || ev.kind is LeftDrag) ==> {
        &&& tree_click_fits(s.tree, ev.column, ev.row)
        &&& tree_click(s.tree, ev.column, ev.row, 0) is None ==> bin_click_fits(s, ev.column, ev.row)
    }
}

/// The arithmetic of reading an event stays within its types.
pub open spec fn input_fits(s: State, ev: Input) -> bool {
    ev matches Input::Mouse(m) ==> mouse_fits(s, m)
}

/// Whether the arithmetic of reading an event stays within its types.
pub fn input_fits_check(state: &State, input: Input) -> (r: bool)
    ensures
        r == input_fits(*state, input),
{
    let m = match input {
        Input::Mouse(m) => m,
        _ => {
            return true;
        },
    };
    match m.kind {
        MouseKind::LeftDown | MouseKind::LeftDrag => {},
        _ => {
            return true;
        },
    }
    let (col, row) = (m.column, m.row);
    let tlen = state.tree.rows().len();
    if !scrollbar_fits_check(state.tree.scrollbar_area, tlen, col, row) {
        return false;
    }
    let mut tree_hit = Command::scrollbar_hit(state.tree.scrollbar_area, tlen, col, row).is_some();
    if !tree_hit {
        let offset = state.tree.table_state().offset();
        if !list_fits_check(state.tree.table_area, offset, col, row) {
            return false;
        }
        tree_hit = Command::list_item_hit(state.tree.table_area, offset, tlen, col, row).is_some();
    }
    if tree_hit {
        return true;
    }
    let blen = state.bin.rows().len();
    if !scrollbar_fits_check(state.bin.scrollbar_area, blen, col, row) {
        return false;
    }
    if Command::scrollbar_hit(state.bin.scrollbar_area, blen, col, row).is_some() {
        return true;
    }
    list_fits_check(state.bin.table_area, state.bin.table_state().offset(), col, row)
}

fn scrollbar_fits_check(area: Area, len: usize, col: u16, row: u16) -> (r: bool)
    ensures
        r == scrollbar_fits(area, len, col, row),
{
    if len == 0 || col != area.x || row < area.top() || row >= area.bottom() {
        return true;
    }
    ((row - area.y) as usize).checked_mul(len).is_some()
}

fn list_fits_check(area: Area, offset: usize, col: u16, row: u16) -> (r: bool)
    ensures
        r == list_fits(area, offset, col, row),
{
    if area.y == u16::MAX {
        return false;
    }
    let content_top = area.y + 1;
    if col < area.left() || col >= area.right() || row < content_top || row >= area.bottom() {
        return true;
    }
    offset.checked_add((row - content_top) as usize).is_some()
}

impl Command {
    /// The command an event asks for; a click also moves the focus to the
    /// panel hit and is remembered, with the time `now_ms` of a monotonic
    /// clock in milliseconds, to tell double clicks.
    pub fn from_event(event: Input, state: &mut State, now_ms: u64) -> (r: Command)
        requires
            old(state).wf(),
            input_fits(*old(state), event),
        ensures
            match event {
                Input::Key(e) => {
                    &&& *final(state) == *old(state)
                    &&& r == if e.press {
                        key_command(
                            e.code,
                            e.ctrl,
                            old(state).overlay,
                            old(state).focus,
                            old(state).tree.table_state.spec_selected(),
                        )
                    } else {
                        Command::Nothing
                    }
                },
                Input::Mouse(e) => mouse_outcome(*old(state), e, now_ms, r, *final(state)),
                Input::Other => *final(state) == *old(state) && r == Command::Nothing,
            },
    {
        match event {
            Input::Key(e) => Self::parse_key_event(e, state),
            Input::Mouse(e) => Self::parse_mouse_event(e, state, now_ms),
            Input::Other => Command::Nothing,
        }
    }

    pub fn parse_key_event(event: KeyInput, state: &State) -> (r: Command)
        ensures
            r == if event.press {
                key_command(event.code, event.ctrl, state.overlay, state.focus, state.tree.table_state.spec_selected())
            } else {
                Command::Nothing
            },
    {
        if !event.press {
            return Command::Nothing;
        }
        match state.overlay {
            Overlay::Confirm(ConfirmKind::Clear) => {
                return match event.code {
                    Key::Char('y') | Key::Char('Y') => Command::Bin(BinCommand::ClearConfirmed),
                    Key::Char('n') | Key::Char('N') | Key::Esc => Command::HideOverlay,
                    _ => Command::Nothing,
                };
            },
            Overlay::Alert(AlertKind::IncompleteClear) => {
                return match event.code {
                    Key::Enter | Key::Esc => Command::HideOverlay,
                    _ => Command::Nothing,
                };
            },
            Overlay::Alert(AlertKind::ClearEmptyBin) => {
                if event.code == Key::Enter {
                    return Command::HideOverlay;
                }
            },
            _ => {},
        }
        let focus = state.focus();
        let ctrl = event.ctrl;
        match event.code {
            Key::Char('q') | Key::Char('Q') => Command::Quit,
            Key::Char('c') if ctrl => Command::Quit,
            Key::F(1) | Key::Char('h') | Key::Char('H') => Command::Help,
            Key::Tab => Command::FocusNext,
            Key::Char('1') => Command::Toggle(Component::Tree),
            Key::Char('2') => Command::Toggle(Component::Pie),
            Key::Char('3') => Command::Toggle(Component::Bin),
            Key::Up | Key::Char('w') | Key::Char('W') | Key::Char('k') | Key::Char('K') => match focus {
                Some(Component::Tree) => Command::Tree(TreeCommand::Up),
                Some(Component::Bin) => Command::Bin(BinCommand::Up),
                _ => Command::Nothing,
            },
            Key::Down | Key::Char('s') | Key::Char('S') | Key::Char('j') | Key::Char('J') => match focus {
                Some(Component::Tree) => Command::Tree(TreeCommand::Down),
                Some(Component::Bin) => Command::Bin(BinCommand::Down),
                _ => Command::Nothing,
            },
            Key::Enter => match focus {
                Some(Component::Tree) => Command::Tree(TreeCommand::Enter(state.tree.table_state().selected())),
                _ => Command::Nothing,
            },
            Key::Char('t') | Key::Char('T') => match focus {
                Some(Component::Tree) => Command::Tree(TreeCommand::Trash),
                _ => Command::Nothing,
            },
            Key::Char('r') | Key::Char('R') => match focus {
                Some(Component::Tree) => Command::Tree(TreeCommand::Restore),
                Some(Component::Bin) => Command::Bin(BinCommand::Restore),
                _ => Command::Nothing,
            },
            Key::Char('c') | Key::Char('C') => match focus {
                Some(Component::Tree) | Some(Component::Bin) => Command::Bin(BinCommand::Clear),
                _ => Command::Nothing,
            },
            _ => Command::Nothing,
        }
    }

    pub fn parse_mouse_event(event: MouseInput, state: &mut State, now_ms: u64) -> (r: Command)
        requires
            old(state).wf(),
            mouse_fits(*old(state), event),
        ensures
            mouse_outcome(*old(state), event, now_ms, r, *final(state)),
    {
        match event.kind {
            MouseKind::LeftDown | MouseKind::LeftDrag => {
                proof {
                    lemma_tree_click_time(state.tree, event.column, event.row, now_ms);
                }
                if let Some(cmd) = Self::hit_tree(state, event.column, event.row, now_ms) {
                    state.set_focus(Component::Tree);
                    return Command::Tree(cmd);
                }
                if let Some(cmd) = Self::hit_bin(state, event.column, event.row) {
                    state.set_focus(Component::Bin);
                    return Command::Bin(cmd);
                }
                Command::Nothing
            },
            MouseKind::ScrollUp => match state.focus() {
                Some(Component::Tree) => Command::Tree(TreeCommand::Up),
                Some(Component::Bin) => Command::Bin(BinCommand::Up),
                _ => Command::Nothing,
            },
            MouseKind::ScrollDown => match state.focus() {
                Some(Component::Tree) => Command::Tree(TreeCommand::Down),
                Some(Component::Bin) => Command::Bin(BinCommand::Down),
                _ => Command::Nothing,
            },
            MouseKind::Other => Command::Nothing,
        }
    }

    pub fn hit_tree(state: &mut State, col: u16, row: u16, now_ms: u64) -> (r: Option<TreeCommand>)
        requires
            tree_click_fits(old(state).tree, col, row),
        ensures
            match tree_click(old(state).tree, col, row, now_ms) {
                Some((cmd, last)) => r == Some(cmd) && *final(state) == (State {
                    tree: TreeState { last_click: last, ..old(state).tree },
                    ..*old(state)
                }),
                None => r is None && *final(state) == *old(state),
            },
    {
        let len = state.tree.rows().len();
        if let Some(index) = Self::scrollbar_hit(state.tree.scrollbar_area, len, col, row) {
            return Some(TreeCommand::ScrollTo(index));
        }
        let offset = state.tree.table_state().offset();
        let idx = match Self::list_item_hit(state.tree.table_area, offset, len, col, row) {
            Some(i) => i,
            None => {
                return None;
            },
        };
        let is_double = match state.tree.last_click {
            Some((last_idx, t)) => last_idx == idx && now_ms.saturating_sub(t) < DOUBLE_CLICK_MS,
            None => false,
        };
        if is_double {
            state.tree.last_click = None;
            Some(TreeCommand::Enter(Some(idx)))
        } else {
            state.tree.last_click = Some((idx, now_ms));
            Some(TreeCommand::Select(idx))
        }
    }

    pub fn hit_bin(state: &State, col: u16, row: u16) -> (r: Option<BinCommand>)
        requires
            bin_click_fits(*state, col, row),
        ensures
            r == bin_click(*state, col, row),
    {
        let len = state.bin.rows().len();
        if let Some(index) = Self::scrollbar_hit(state.bin.scrollbar_area, len, col, row) {
            return Some(BinCommand::ScrollTo(index));
        }
        let offset = state.bin.table_state().offset();
        match Self::list_item_hit(state.bin.table_area, offset, len, col, row) {
            Some(idx) => Some(BinCommand::Select(idx)),
            None => None,
        }
    }

    pub fn scrollbar_hit(area: Area, len: usize, col: u16, row: u16) -> (r: Option<usize>)
        requires
            scrollbar_fits(area, len, col, row),
        ensures
            r == scrollbar_target(area, len, col, row),
    {
        if len == 0 || col != area.x || row < area.top() || row >= area.bottom() {
            return None;
        }
        let d = (row - area.y) as usize;
        assert(d * len <= usize::MAX);
        Some(d * len / area.height as usize)
    }

    pub fn list_item_hit(area: Area, offset: usize, len: usize, col: u16, row: u16) -> (r: Option<usize>)
        requires
            list_fits(area, offset, col, row),
        ensures
            r == list_target(area, offset, len, col, row),
    {
        let content_top = area.y + 1;
        if col < area.left() || col >= area.right() || row < content_top || row >= area.bottom() {
            return None;
        }
        let idx = offset + (row - content_top) as usize;
        if idx < len {
            Some(idx)
        } else {
            None
        }
    }
}

/// Whether a click hits the tree does not depend on when it happens.
proof fn lemma_tree_click_time(t: TreeState, col: u16, row: u16, now_ms: u64)
    ensures
        (tree_click(t, col, row, now_ms) is None) == (tree_click(t, col, row, 0) is None),
{
}

/// What reading a mouse event does: `r` is the command and `next` the state
/// after it.
pub open spec fn mouse_outcome(s: State, e: MouseInput, now_ms: u64, r: Command, next: State) -> bool {
    match e.kind {
        MouseKind::LeftDown | MouseKind::LeftDrag => match tree_click(s.tree, e.column, e.row, now_ms) {
            Some((cmd, last)) => {
                &&& r == Command::Tree(cmd)
                &&& next.tree == (TreeState { last_click: last, ..s.tree })
                &&& next.focus == if s.active@.contains(Component::Tree) {
                    Some(Component::Tree)
                } else {
                    s.focus
                }
                &&& next.same_but_tree_focus(s)
            },
            None => match bin_click(s, e.column, e.row) {
                Some(cmd) => {
                    &&& r == Command::Bin(cmd)
                    &&& next.tree == s.tree
                    &&& next.focus == if s.active@.contains(Component::Bin) {
                        Some(Component::Bin)
                    } else {
                        s.focus
                    }
                    &&& next.same_but_tree_focus(s)
                },
                None => r == Command::Nothing && next == s,
            },
        },
        MouseKind::ScrollUp => r == up_command(s.focus) && next == s,
        MouseKind::ScrollDown => r == down_command(s.focus) && next == s,
        MouseKind::Other => r == Command::Nothing && next == s,
    }
}

/// A click on a scroll bar stands for one of the rows of its list.
pub proof fn lemma_scrollbar_target_in_range(area: Area, len: usize, col: u16, row: u16)
    ensures
        scrollbar_target(area, len, col, row) matches Some(i) ==> i < len,
{
    if scrollbar_target(area, len, col, row) is Some {
        let d = (row - area.y) as int;
        let h = area.height as int;
        assert(d < h);
        assert(d * len < h * len) by (nonlinear_arith)
            requires
                0 <= d < h,
                len > 0,
        ;
        assert((d * len) / h < len) by (nonlinear_arith)
            requires
                d * len < h * len,
                h > 0,
                d >= 0,
        ;
    }
}

/// A click in a list stands for one of its rows.
pub proof fn lemma_list_target_in_range(area: Area, offset: usize, len: usize, col: u16, row: u16)
    ensures
        list_target(area, offset, len, col, row) matches Some(i) ==> i < len,
{
}

/// A second click on the row just clicked, before the double-click time
/// runs out, opens that row; the first click selects it.
pub proof fn lemma_double_click(t: TreeState, col: u16, row: u16, first_ms: u64, second_ms: u64)
    requires
        tree_click(t, col, row, first_ms) matches Some((TreeCommand::Select(_), _)),
        first_ms <= second_ms < first_ms + DOUBLE_CLICK_MS,
    ensures
        ({
            let (cmd, last) = tree_click(t, col, row, first_ms)->0;
            let idx = cmd->Select_0;
            &&& last == Some((idx, first_ms))
            &&& tree_click(TreeState { last_click: last, ..t }, col, row, second_ms) == Some(
                (TreeCommand::Enter(Some(idx)), None::<(usize, u64)>),
            )
        }),
{
}

/// Under the alert that a clear left entries behind, Enter and Esc dismiss
/// it and no other key acts.
pub proof fn lemma_alert_keys(code: Key, ctrl: bool, focus: Option<Component>, selected: Option<usize>)
    ensures
        key_command(code, ctrl, Overlay::Alert(AlertKind::IncompleteClear), focus, selected) == if code is Enter
            || code is Esc {
            Command::HideOverlay
        } else {
            Command::Nothing
        },
{
}

/// Under the alert that the bin was already empty, Enter dismisses it and
/// every other key acts as it does with no overlay.
pub proof fn lemma_empty_bin_alert_keys(code: Key, ctrl: bool, focus: Option<Component>, selected: Option<usize>)
    ensures
        key_command(code, ctrl, Overlay::Alert(AlertKind::ClearEmptyBin), focus, selected) == if code is Enter {
            Command::HideOverlay
        } else {
            key_command(code, ctrl, Overlay::Hidden, focus, selected)
        },
{
}

/// Under the confirmation of a clear, y or Y confirms, n, N or Esc cancels,
/// and no other key acts: not even q or Control-c quits.
pub proof fn lemma_confirm_keys(code: Key, ctrl: bool, focus: Option<Component>, selected: Option<usize>)
    ensures
        ({
            let r = key_command(code, ctrl, Overlay::Confirm(ConfirmKind::Clear), focus, selected);
            &&& (r == Command::Bin(BinCommand::ClearConfirmed)) == (code == Key::Char('y') || code == Key::Char('Y'))
            &&& (r == Command::HideOverlay) == (code == Key::Char('n') || code == Key::Char('N') || code == Key::Esc)
            &&& r == Command::Bin(BinCommand::ClearConfirmed) || r == Command::HideOverlay || r == Command::Nothing
        }),
{
}

/// The key table with no overlay open (or only the help): q quits, as does
/// Control-c; F1 and h show the help; Tab moves the focus; 1, 2, 3 toggle
/// the tree, the pie and the bin; Up, w, k and Down, s, j move in the
/// focused panel; Enter opens the selected tree row; t trashes and r
/// restores from the tree; r restores from the bin when it has the focus;
/// c asks to clear the bin from either panel. Letters count in either case.
pub proof fn lemma_key_table(code: Key, ctrl: bool, overlay: Overlay, focus: Option<Component>, selected: Option<usize>)
    requires
        overlay == Overlay::Hidden || overlay == Overlay::Help,
    ensures
        ({
            let r = key_command(code, ctrl, overlay, focus, selected);
            &&& (code == Key::Char('q') || code == Key::Char('Q')) ==> r == Command::Quit
            &&& (code == Key::Char('c') && ctrl) ==> r == Command::Quit
            &&& (code == Key::F(1) || code == Key::Char('h') || code == Key::Char('H')) ==> r == Command::Help
            &&& code == Key::Tab ==> r == Command::FocusNext
            &&& code == Key::Char('1') ==> r == Command::Toggle(Component::Tree)
            &&& code == Key::Char('2') ==> r == Command::Toggle(Component::Pie)
            &&& code == Key::Char('3') ==> r == Command::Toggle(Component::Bin)
            &&& (code == Key::Up || code == Key::Char('w') || code == Key::Char('W') || code == Key::Char('k')
                || code == Key::Char('K')) ==> (focus == Some(Component::Tree) ==> r == Command::Tree(TreeCommand::Up))
                && (focus == Some(Component::Bin) ==> r == Command::Bin(BinCommand::Up))
                && (focus != Some(Component::Tree) && focus != Some(Component::Bin) ==> r == Command::Nothing)
            &&& (code == Key::Down || code == Key::Char('s') || code == Key::Char('S') || code == Key::Char('j')
                || code == Key::Char('J')) ==> (focus == Some(Component::Tree) ==> r == Command::Tree(
                TreeCommand::Down,
            )) && (focus == Some(Component::Bin) ==> r == Command::Bin(BinCommand::Down)) && (focus != Some(
                Component::Tree,
            ) && focus != Some(Component::Bin) ==> r == Command::Nothing)
            &&& code == Key::Enter ==> (focus == Some(Component::Tree) ==> r == Command::Tree(
                TreeCommand::Enter(selected),
            )) && (focus != Some(Component::Tree) ==> r == Command::Nothing)
            &&& (code == Key::Char('t') || code == Key::Char('T')) ==> (focus == Some(Component::Tree) ==> r
                == Command::Tree(TreeCommand::Trash)) && (focus != Some(Component::Tree) ==> r == Command::Nothing)
            &&& (code == Key::Char('r') || code == Key::Char('R')) ==> (focus == Some(Component::Tree) ==> r
                == Command::Tree(TreeCommand::Restore)) && (focus == Some(Component::Bin) ==> r == Command::Bin(
                BinCommand::Restore,
            )) && (focus != Some(Component::Tree) && focus != Some(Component::Bin) ==> r == Command::Nothing)
            &&& (code == Key::Char('C') || (code == Key::Char('c') && !ctrl)) ==> (focus == Some(Component::Tree)
                || focus == Some(Component::Bin) ==> r == Command::Bin(BinCommand::Clear)) && (focus != Some(
                Component::Tree,
            ) && focus != Some(Component::Bin) ==> r == Command::Nothing)
            &&& (code == Key::Esc || code == Key::Other) ==> r == Command::Nothing
        }),
{
}

/// A click on a row of the tree that does not follow a click on that same
/// row only selects it, and remembers the row and the time; a click that
/// follows one on the same row less than 400 ms before opens the row and
/// forgets the click; a later one selects it again.
pub proof fn lemma_click_rows(t: TreeState, col: u16, row: u16, now_ms: u64, idx: usize)
    requires
        scrollbar_target(t.scrollbar_area, t.spec_rows().len() as usize, col, row) is None,
        list_target(t.table_area, t.table_state.spec_offset(), t.spec_rows().len() as usize, col, row) == Some(
            idx,
        ),
    ensures
        !(t.last_click matches Some((j, at)) && j == idx) ==> tree_click(t, col, row, now_ms) == Some(
            (TreeCommand::Select(idx), Some((idx, now_ms))),
        ),
        (t.last_click matches Some((j, at)) && j == idx && at <= now_ms && now_ms - at < 400) ==> tree_click(
            t,
            col,
            row,
            now_ms,
        ) == Some((TreeCommand::Enter(Some(idx)), None::<(usize, u64)>)),
        (t.last_click matches Some((j, at)) && j == idx && at <= now_ms && now_ms - at >= 400) ==> tree_click(
            t,
            col,
            row,
            now_ms,
        ) == Some((TreeCommand::Select(idx), Some((idx, now_ms)))),
{
}

/// A click on the tree opens a row only when the last click was on that same
/// row and less than 400 ms before, by the clock or from a clock that went
/// back.
pub proof fn lemma_click_opens_only_same_row(t: TreeState, col: u16, row: u16, now_ms: u64)
    ensures
        tree_click(t, col, row, now_ms) matches Some((TreeCommand::Enter(target), last)) ==> {
            &&& target matches Some(i)
            &&& t.last_click matches Some((j, at)) && j == i && (now_ms < at || now_ms - at < 400)
            &&& last is None
        },
{
}

} // verus!
