use diskly::app::command::{BinCommand, Command, Input, Key, KeyInput, MouseInput, MouseKind, TreeCommand};
use diskly::app::dispatch::{handle_command, Effect};
use diskly::app::state::bin::BinEntry;
use diskly::app::state::{AlertKind, Component, ConfirmKind, Overlay, State};
use diskly::app::table::Area;
use diskly::config::StateConfig;
use diskly::fs::path::FsPath;
use diskly::fs::tree::populated_tree;

fn p(s: &str) -> FsPath {
    let absolute = s.starts_with('/');
    let parts = s.split('/').filter(|x| !x.is_empty()).map(|x| x.to_string()).collect();
    FsPath::new(absolute, parts)
}

fn state(path: &str) -> State {
    State::new(
        StateConfig { active: vec!["tree".to_string(), "pie".to_string(), "bin".to_string()] },
        p(path),
    )
}

fn key(code: Key) -> Input {
    Input::Key(KeyInput { code, press: true, ctrl: false })
}

fn click(column: u16, row: u16) -> Input {
    Input::Mouse(MouseInput { kind: MouseKind::LeftDown, column, row })
}

#[test]
fn keys_map_to_commands() {
    let mut s = state("/");
    assert_eq!(Command::from_event(key(Key::Char('q')), &mut s, 0), Command::Quit);
    assert_eq!(Command::from_event(key(Key::F(1)), &mut s, 0), Command::Help);
    assert_eq!(Command::from_event(key(Key::Tab), &mut s, 0), Command::FocusNext);
    assert_eq!(Command::from_event(key(Key::Char('2')), &mut s, 0), Command::Toggle(Component::Pie));
    assert_eq!(Command::from_event(key(Key::Char('k')), &mut s, 0), Command::Tree(TreeCommand::Up));
    assert_eq!(Command::from_event(key(Key::Down), &mut s, 0), Command::Tree(TreeCommand::Down));
    assert_eq!(Command::from_event(key(Key::Char('t')), &mut s, 0), Command::Tree(TreeCommand::Trash));
    assert_eq!(Command::from_event(key(Key::Char('c')), &mut s, 0), Command::Bin(BinCommand::Clear));
    assert_eq!(Command::from_event(key(Key::Char('x')), &mut s, 0), Command::Nothing);
    let ctrl_c = Input::Key(KeyInput { code: Key::Char('c'), press: true, ctrl: true });
    assert_eq!(Command::from_event(ctrl_c, &mut s, 0), Command::Quit);
}

#[test]
fn key_release_does_nothing() {
    let mut s = state("/");
    let release = Input::Key(KeyInput { code: Key::Char('q'), press: false, ctrl: false });
    assert_eq!(Command::from_event(release, &mut s, 0), Command::Nothing);
}

#[test]
fn keys_follow_the_focus() {
    let mut s = state("/");
    s.focus = Some(Component::Bin);
    assert_eq!(Command::from_event(key(Key::Up), &mut s, 0), Command::Bin(BinCommand::Up));
    assert_eq!(Command::from_event(key(Key::Char('r')), &mut s, 0), Command::Bin(BinCommand::Restore));
    assert_eq!(Command::from_event(key(Key::Enter), &mut s, 0), Command::Nothing);
    s.focus = None;
    assert_eq!(Command::from_event(key(Key::Up), &mut s, 0), Command::Nothing);
}

#[test]
fn enter_opens_the_selected_row() {
    let mut s = state("/home");
    s.update_tree(&populated_tree());
    s.tree.select_row(Some(2));
    assert_eq!(
        Command::from_event(key(Key::Enter), &mut s, 0),
        Command::Tree(TreeCommand::Enter(Some(2)))
    );
}

#[test]
fn confirm_overlay_takes_yes_and_no() {
    let mut s = state("/");
    s.overlay = Overlay::Confirm(ConfirmKind::Clear);
    assert_eq!(Command::from_event(key(Key::Char('Y')), &mut s, 0), Command::Bin(BinCommand::ClearConfirmed));
    assert_eq!(Command::from_event(key(Key::Esc), &mut s, 0), Command::HideOverlay);
    assert_eq!(Command::from_event(key(Key::Char('q')), &mut s, 0), Command::Nothing);
}

#[test]
fn alert_overlay_takes_enter() {
    let mut s = state("/");
    s.overlay = Overlay::Alert(AlertKind::IncompleteClear);
    assert_eq!(Command::from_event(key(Key::Enter), &mut s, 0), Command::HideOverlay);
    assert_eq!(Command::from_event(key(Key::Esc), &mut s, 0), Command::HideOverlay);
    assert_eq!(Command::from_event(key(Key::Char('h')), &mut s, 0), Command::Nothing);
    assert_eq!(Command::from_event(key(Key::Char('q')), &mut s, 0), Command::Nothing);
}

#[test]
fn alert_overlay_empty_bin_takes_enter() {
    let mut s = state("/");
    s.overlay = Overlay::Alert(AlertKind::ClearEmptyBin);
    assert_eq!(Command::from_event(key(Key::Enter), &mut s, 0), Command::HideOverlay);
    // every other key acts as it does with no overlay
    assert_eq!(Command::from_event(key(Key::Esc), &mut s, 0), Command::Nothing);
    assert_eq!(Command::from_event(key(Key::Char('j')), &mut s, 0), Command::Tree(TreeCommand::Down));
    assert_eq!(Command::from_event(key(Key::Char('2')), &mut s, 0), Command::Toggle(Component::Pie));
    assert_eq!(Command::from_event(key(Key::Char('q')), &mut s, 0), Command::Quit);
    assert_eq!(s.overlay, Overlay::Alert(AlertKind::ClearEmptyBin));
}

fn clickable_state() -> State {
    let mut s = state("/home/user");
    s.update_tree(&populated_tree());
    s.tree.table_area = Area { x: 1, y: 1, width: 40, height: 10 };
    s.tree.scrollbar_area = Area { x: 41, y: 1, width: 1, height: 10 };
    s.bin.table_area = Area { x: 50, y: 1, width: 20, height: 10 };
    s.bin.scrollbar_area = Area { x: 70, y: 1, width: 1, height: 10 };
    s
}

#[test]
fn click_selects_then_double_click_opens() {
    let mut s = clickable_state();
    s.focus = Some(Component::Bin);
    // the header is row 1, the first row (the way up) is row 2
    assert_eq!(Command::from_event(click(5, 3), &mut s, 1000), Command::Tree(TreeCommand::Select(1)));
    assert_eq!(s.focus, Some(Component::Tree));
    assert_eq!(s.tree.last_click, Some((1, 1000)));
    assert_eq!(
        Command::from_event(click(5, 3), &mut s, 1300),
        Command::Tree(TreeCommand::Enter(Some(1)))
    );
    assert_eq!(s.tree.last_click, None);
}

#[test]
fn slow_second_click_selects_again() {
    let mut s = clickable_state();
    Command::from_event(click(5, 3), &mut s, 1000);
    assert_eq!(Command::from_event(click(5, 3), &mut s, 1400), Command::Tree(TreeCommand::Select(1)));
    assert_eq!(s.tree.last_click, Some((1, 1400)));
}

#[test]
fn click_below_rows_misses() {
    let mut s = clickable_state();
    assert_eq!(Command::from_event(click(5, 9), &mut s, 0), Command::Nothing);
}

#[test]
fn scrollbar_click_scrolls() {
    let mut s = clickable_state();
    // three rows over a bar of height 10: row 6 is 5/10 of the way down
    assert_eq!(Command::from_event(click(41, 6), &mut s, 0), Command::Tree(TreeCommand::ScrollTo(1)));
}

#[test]
fn bin_click_selects_and_focuses_bin() {
    let mut s = clickable_state();
    s.bin.push_entry(BinEntry::default());
    assert_eq!(Command::from_event(click(55, 2), &mut s, 0), Command::Bin(BinCommand::Select(0)));
    assert_eq!(s.focus, Some(Component::Bin));
}

#[test]
fn scroll_wheel_moves_focused_list() {
    let mut s = clickable_state();
    let up = Input::Mouse(MouseInput { kind: MouseKind::ScrollUp, column: 0, row: 0 });
    assert_eq!(Command::from_event(up, &mut s, 0), Command::Tree(TreeCommand::Up));
}

#[test]
fn handle_quit_and_help() {
    let tree = populated_tree();
    let mut s = state("/");
    assert!(matches!(handle_command(&mut s, Command::Help, &tree, false), Effect::Done));
    assert_eq!(s.overlay, Overlay::Help);
    handle_command(&mut s, Command::Help, &tree, false);
    assert_eq!(s.overlay, Overlay::Hidden);
    handle_command(&mut s, Command::Quit, &tree, false);
    assert!(!s.running);
}

#[test]
fn tree_commands_wait_for_scans() {
    let tree = populated_tree();
    let mut s = state("/home");
    s.update_tree(&tree);
    handle_command(&mut s, Command::Tree(TreeCommand::Down), &tree, true);
    assert_eq!(s.tree.table_state().selected(), Some(0));
    handle_command(&mut s, Command::Tree(TreeCommand::Down), &tree, false);
    assert_eq!(s.tree.table_state().selected(), Some(1));
}

#[test]
fn enter_unscanned_directory_asks_for_scan() {
    let tree = populated_tree();
    let mut s = state("/");
    s.update_tree(&tree);
    // "/" holds only "home", which was never scanned
    match handle_command(&mut s, Command::Tree(TreeCommand::Enter(Some(1))), &tree, false) {
        Effect::Scan(path) => assert_eq!(path, p("/home")),
        other => panic!("expected a scan, got {other:?}"),
    }
    assert_eq!(s.tree.path, p("/home"));
}

#[test]
fn clear_confirmed_is_left_to_the_caller() {
    let tree = populated_tree();
    let mut s = state("/");
    s.overlay = Overlay::Confirm(ConfirmKind::Clear);
    assert!(matches!(
        handle_command(&mut s, Command::Bin(BinCommand::ClearConfirmed), &tree, false),
        Effect::DeleteBin
    ));
    handle_command(&mut s, Command::HideOverlay, &tree, false);
    assert_eq!(s.overlay, Overlay::Hidden);
}

#[test]
fn bin_commands_run_while_scanning() {
    let tree = populated_tree();
    let mut s = state("/");
    s.bin.push_entries(vec![BinEntry::default(); 2]);
    handle_command(&mut s, Command::Bin(BinCommand::Up), &tree, true);
    assert_eq!(s.bin.table_state().selected(), Some(0));
    handle_command(&mut s, Command::Bin(BinCommand::Restore), &tree, true);
    assert_eq!(s.bin.rows().len(), 1);
}
