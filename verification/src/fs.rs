pub mod arena;
pub mod entry;
pub mod model;
pub mod path;
pub mod scanner;
pub mod tree;
