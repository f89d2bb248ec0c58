//! Where the bookmarks file lives, and the configuration a new file starts with.
use vstd::prelude::*;

use crate::error::{BookmarksError, ErrorView};

verus! {

/// A path of the file system.
#[verifier::external_type_specification]
#[verifier::external_body]
pub struct ExPathBuf(std::path::PathBuf);

/// The configuration written to a new bookmarks file.
pub const DEFAULT_CONFIG: &'static str = r#"# https://github.com/dkdc-io/bookmarks
# bookmarks config file

[urls]
dkdc-bookmarks = "https://github.com/dkdc-io/bookmarks"
github = { url = "https://github.com", aliases = ["gh"] }

[urls.linkedin]
url = "https://linkedin.com"
aliases = ["li"]

[groups]
socials = ["gh", "linkedin"]
"#;

/// The directory under the home directory that holds configuration.
pub const CONFIG_DIR: &'static str = ".config";

/// The directory of this application under `CONFIG_DIR`.
pub const APP_NAME: &'static str = "bookmarks";

/// The name of the bookmarks file.
pub const CONFIG_FILENAME: &'static str = "bookmarks.toml";

/// The path that `Path::join` gives for `base` and one more component.
pub uninterp spec fn joined_path(base: std::path::PathBuf, component: Seq<char>) -> std::path::PathBuf;

/// `dirs::home_dir`: the home directory of the current user, if it can be
/// found. It depends on the environment and the platform, so nothing is
/// claimed of the result.
#[verifier::external_body]
fn home_dir() -> (r: Option<std::path::PathBuf>) {
    dirs::home_dir()
}

/// `Path::join` of a path and one component. The result is claimed to be a
/// function of the two arguments (named `joined_path`); nothing more is claimed.
#[verifier::external_body]
fn join_path(base: &std::path::PathBuf, component: &str) -> (r: std::path::PathBuf)
    ensures
        r == joined_path(*base, component@),
{
    base.join(component)
}

/// The bookmarks file under a home directory: `.config/bookmarks/bookmarks.toml`.
pub open spec fn config_path_under(home: std::path::PathBuf) -> std::path::PathBuf {
    joined_path(joined_path(joined_path(home, CONFIG_DIR@), APP_NAME@), CONFIG_FILENAME@)
}

/// A bookmarks file kept in TOML.
pub struct TomlStorage {
    path: std::path::PathBuf,
}

impl TomlStorage {
    /// The path of the file.
    pub closed spec fn spec_path(&self) -> std::path::PathBuf {
        self.path
    }

    /// Storage in the file at `path`.
    pub fn new(path: std::path::PathBuf) -> (s: Self)
        ensures
            s.spec_path() == path,
    {
        TomlStorage { path }
    }

    /// The path of the file.
    pub fn path(&self) -> (r: &std::path::PathBuf)
        ensures
            *r == self.spec_path(),
    {
        &self.path
    }

    /// The name of the storage backend.
    pub fn backend_name(&self) -> (r: &'static str)
        ensures
            r@ == "toml"@,
    {
        "toml"
    }

    /// The config path under a home directory that was found:
    /// `<home>/.config/bookmarks/bookmarks.toml`; an error when none was found.
    pub fn config_path_for(home: Option<std::path::PathBuf>) -> (r: Result<
        std::path::PathBuf,
        BookmarksError,
    >)
        ensures
            match home {
                Some(h) => r matches Ok(p) && p == config_path_under(h),
                None => r matches Err(e) && e.deep_view() == ErrorView::HomeDirUnavailable,
            },
    {
        match home {
            Some(home) => {
                let a = join_path(&home, CONFIG_DIR);
                let b = join_path(&a, APP_NAME);
                let c = join_path(&b, CONFIG_FILENAME);
                Ok(c)
            },
            None => Err(BookmarksError::HomeDirUnavailable),
        }
    }

    /// Default config path: `~/.config/bookmarks/bookmarks.toml`, or an error
    /// when the home directory cannot be found. Which home directory is found
    /// depends on the environment; the path is that of `config_path_for`.
    pub fn default_path() -> (r: Result<std::path::PathBuf, BookmarksError>)
        ensures
            r matches Ok(p) ==> exists|home: std::path::PathBuf| p == config_path_under(home),
            r matches Err(e) ==> e.deep_view() == ErrorView::HomeDirUnavailable,
    {
        Self::config_path_for(home_dir())
    }

    /// Storage in the config file under a home directory that was found; an
    /// error when none was found.
    pub fn for_home(home: Option<std::path::PathBuf>) -> (r: Result<Self, BookmarksError>)
        ensures
            match home {
                Some(h) => r matches Ok(s) && s.spec_path() == config_path_under(h),
                None => r matches Err(e) && e.deep_view() == ErrorView::HomeDirUnavailable,
            },
    {
        match Self::config_path_for(home) {
            Ok(p) => Ok(Self::new(p)),
            Err(e) => Err(e),
        }
    }

    /// Storage in the default file. Which home directory is found depends on
    /// the environment; the storage is that of `for_home`.
    pub fn with_default_path() -> (r: Result<Self, BookmarksError>)
        ensures
            r matches Ok(s) ==> exists|home: std::path::PathBuf| s.spec_path() == config_path_under(
                home,
            ),
            r matches Err(e) ==> e.deep_view() == ErrorView::HomeDirUnavailable,
    {
        Self::for_home(home_dir())
    }
}

} // verus!
