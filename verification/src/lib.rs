//! A desktop full-text search toolkit: query planning, tokenizing, schema
//! layout, file-system change tracking and Windows service helpers.

pub mod number;
pub mod path_set;
pub mod sdk;
pub mod search;
pub mod text;
pub mod watcher;
pub mod windows;
