pub mod app;
pub mod config;
pub mod fs;
