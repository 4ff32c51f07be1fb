pub mod command;
pub mod dispatch;
pub mod state;
pub mod table;
pub mod tui;
