//! Bookmarks kept in a configuration of named urls, their aliases and groups.
//!
//! A url entry is a plain url or a url with aliases; a group lists url names
//! or aliases. Names resolve to urls, groups expand to their members, and the
//! editing operations (renaming and deleting urls, aliases and groups) keep
//! the group references in step with the urls.
use vstd::prelude::*;

pub mod cli;
pub mod config;
pub mod entry;
pub mod error;
pub mod laws;
pub mod laws_output;
pub mod laws_warnings;
pub mod listing;
pub mod name_map;
pub mod open;
pub mod storage;
mod text;
pub mod validate;

pub use cli::{Args, StorageChoice};
pub use config::Config;
pub use entry::UrlEntry;
pub use error::BookmarksError;
pub use name_map::NameMap;
pub use open::{expand_groups, resolve_uri};
pub use storage::{TomlStorage, DEFAULT_CONFIG};

verus! {
} // verus!
