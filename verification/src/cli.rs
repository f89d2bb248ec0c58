//! The decisions of the command line: which bookmarks file to use, and what to
//! do with it.
use vstd::prelude::*;

use crate::error::{BookmarksError, ErrorView};
use crate::text::copy_text;

verus! {

/// The command line arguments.
pub struct Args {
    /// Path to bookmarks file (overrides cwd and global).
    pub bookmarks_file: Option<std::path::PathBuf>,
    /// Use the global bookmarks file, ignoring a local one.
    pub global: bool,
    /// Use `./bookmarks.toml`, creating it if missing.
    pub local: bool,
    /// Edit the bookmarks file.
    pub config: bool,
    /// Things to open.
    pub links: Vec<String>,
}

/// Which bookmarks file to use.
#[derive(Debug, PartialEq, Eq, Structural)]
pub enum StorageChoice {
    /// The file given with `--bookmarks-file`, which exists.
    Explicit,
    /// `./bookmarks.toml`, created with the default configuration if missing.
    Local,
    /// `./bookmarks.toml`, which exists.
    CurrentDir,
    /// The global file, created with the default configuration if missing.
    Global,
}

/// The choice of bookmarks file: an explicit file (which must exist), else the
/// local file when asked for, else an existing file in the current directory
/// unless the global one is asked for, else the global file.
pub open spec fn storage_choice(
    explicit: bool,
    explicit_exists: bool,
    explicit_text: Seq<char>,
    local: bool,
    global: bool,
    cwd_file_exists: bool,
) -> Result<StorageChoice, ErrorView> {
    if explicit {
        if explicit_exists {
            Ok(StorageChoice::Explicit)
        } else {
            Err(ErrorView::BookmarksFileNotFound(explicit_text))
        }
    } else if local {
        Ok(StorageChoice::Local)
    } else if !global && cwd_file_exists {
        Ok(StorageChoice::CurrentDir)
    } else {
        Ok(StorageChoice::Global)
    }
}

/// Resolves which bookmarks file to use, given whether the explicit file
/// exists (with `explicit_text` its path as text) and whether
/// `./bookmarks.toml` exists.
pub fn resolve_storage(
    args: &Args,
    explicit_exists: bool,
    explicit_text: &str,
    cwd_file_exists: bool,
) -> (r: Result<StorageChoice, BookmarksError>)
    ensures
        match r {
            Ok(c) => storage_choice(
                args.bookmarks_file is Some,
                explicit_exists,
                explicit_text@,
                args.local,
                args.global,
                cwd_file_exists,
            ) == Ok::<StorageChoice, ErrorView>(c),
            Err(e) => storage_choice(
                args.bookmarks_file is Some,
                explicit_exists,
                explicit_text@,
                args.local,
                args.global,
                cwd_file_exists,
            ) == Err::<StorageChoice, ErrorView>(e.deep_view()),
        },
        args.bookmarks_file is Some && explicit_exists ==> r == Ok::<
            StorageChoice,
            BookmarksError,
        >(StorageChoice::Explicit),
        args.bookmarks_file is Some && !explicit_exists ==> r is Err && r->Err_0.deep_view()
            == ErrorView::BookmarksFileNotFound(explicit_text@),
        args.bookmarks_file is None && args.local ==> r == Ok::<StorageChoice, BookmarksError>(
            StorageChoice::Local,
        ),
        args.bookmarks_file is None && !args.local && !args.global && cwd_file_exists ==> r
            == Ok::<StorageChoice, BookmarksError>(StorageChoice::CurrentDir),
        args.bookmarks_file is None && !args.local && (args.global || !cwd_file_exists) ==> r
            == Ok::<StorageChoice, BookmarksError>(StorageChoice::Global),
{
    if args.bookmarks_file.is_some() {
        if explicit_exists {
            Ok(StorageChoice::Explicit)
        } else {
            Err(BookmarksError::BookmarksFileNotFound(copy_text(explicit_text)))
        }
    } else if args.local {
        Ok(StorageChoice::Local)
    } else if !args.global && cwd_file_exists {
        Ok(StorageChoice::CurrentDir)
    } else {
        Ok(StorageChoice::Global)
    }
}

/// What a run does once the bookmarks file is chosen.
#[derive(Debug, PartialEq, Eq, Structural)]
pub enum Action {
    /// Open the bookmarks file in an editor.
    EditConfig,
    /// Print the listing of the configuration.
    PrintConfig,
    /// Open the named links.
    OpenLinks,
}

/// Editing wins; otherwise links are opened when there are any, and the
/// configuration is listed when there are none.
pub fn plan_action(args: &Args) -> (a: Action)
    ensures
        args.config ==> a == Action::EditConfig,
        !args.config && args.links@.len() == 0 ==> a == Action::PrintConfig,
        !args.config && args.links@.len() > 0 ==> a == Action::OpenLinks,
{
    if args.config {
        Action::EditConfig
    } else if args.links.len() == 0 {
        Action::PrintConfig
    } else {
        Action::OpenLinks
    }
}

} // verus!
