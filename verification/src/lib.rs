//! The verified core of a disk usage analyzer.

pub mod bytes;
pub mod cleanup;
pub mod collect_laws;
pub mod db;
pub mod demo;
pub mod format;
pub mod format_laws;
pub mod paths;
pub mod report;
pub mod scan_laws;
pub mod scanner;
pub mod settings;
pub mod sort;
pub mod tally;
pub mod text;
pub mod text_laws;
pub mod time;
pub mod ui;
pub mod walk;
pub mod walk_laws;
