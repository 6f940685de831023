pub mod app;
pub mod args;
pub mod file_node;
pub mod path_index;
pub mod scan_order;
pub mod scanner;
pub mod sort;
pub mod utils;

pub use app::App;
pub use args::Args;
pub use file_node::{FileNode, Tree};
pub use scanner::build_tree;
pub use sort::SortMode;
