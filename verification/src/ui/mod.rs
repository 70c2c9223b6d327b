//! The interactive browser, without its terminal.
pub mod app;
pub mod app_laws;
pub mod events;
pub mod key_laws;
pub mod listing_laws;
pub mod nav;
pub mod scan_list;
pub mod scan_tree;
pub mod scan_tree_laws;
pub mod screen_laws;
pub mod screens;
pub mod state;
pub mod tree;
pub mod tree_laws;
pub mod treemap;
pub mod types;

pub use app::App;
pub use types::{SortMode, View};
