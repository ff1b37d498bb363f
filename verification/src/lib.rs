//! Directory listings for a file browser: which files a folder shows, in
//! which order, and how the browser reacts to its keys.

pub mod text;
pub mod path;
pub mod order;
pub mod listing;
pub mod screen;
pub mod session;
pub mod browser;

pub use listing::{DirTree, FilePlus, check_dupes_comp, dir_list_one, list_self_dir, walk_dir};
