//! The errors of the library and their messages.
use vstd::prelude::*;

use crate::text::copy_text;

verus! {

/// The abstract value of an error: the names it carries, by their characters.
pub enum ErrorView {
    UrlNotFound(Seq<char>),
    UrlAlreadyExists(Seq<char>),
    ExistsAsAlias(Seq<char>),
    ExistsAsUrlName(Seq<char>),
    AliasNotFound(Seq<char>),
    AliasAlreadyExists(Seq<char>),
    GroupNotFound(Seq<char>),
    GroupAlreadyExists(Seq<char>),
    NameNotFound(Seq<char>),
    AllUrlsFailed,
    BookmarksFileNotFound(Seq<char>),
    HomeDirUnavailable,
}

/// An error of a bookmarks operation.
#[derive(Debug)]
pub enum BookmarksError {
    /// No url has this name.
    UrlNotFound(String),
    /// A url with this name exists already.
    UrlAlreadyExists(String),
    /// The name is taken by an alias.
    ExistsAsAlias(String),
    /// The name is taken by a url.
    ExistsAsUrlName(String),
    /// No url has this alias.
    AliasNotFound(String),
    /// Some url has this alias already.
    AliasAlreadyExists(String),
    /// No group has this name.
    GroupNotFound(String),
    /// A group with this name exists already.
    GroupAlreadyExists(String),
    /// The name is neither a url name nor an alias.
    NameNotFound(String),
    /// Every url that was asked for failed to open.
    AllUrlsFailed,
    /// The bookmarks file given explicitly does not exist.
    BookmarksFileNotFound(String),
    /// The home directory could not be determined.
    HomeDirUnavailable,
}

impl DeepView for BookmarksError {
    type V = ErrorView;

    open spec fn deep_view(&self) -> ErrorView {
        match self {
            BookmarksError::UrlNotFound(n) => ErrorView::UrlNotFound(n@),
            BookmarksError::UrlAlreadyExists(n) => ErrorView::UrlAlreadyExists(n@),
            BookmarksError::ExistsAsAlias(n) => ErrorView::ExistsAsAlias(n@),
            BookmarksError::ExistsAsUrlName(n) => ErrorView::ExistsAsUrlName(n@),
            BookmarksError::AliasNotFound(n) => ErrorView::AliasNotFound(n@),
            BookmarksError::AliasAlreadyExists(n) => ErrorView::AliasAlreadyExists(n@),
            BookmarksError::GroupNotFound(n) => ErrorView::GroupNotFound(n@),
            BookmarksError::GroupAlreadyExists(n) => ErrorView::GroupAlreadyExists(n@),
            BookmarksError::NameNotFound(n) => ErrorView::NameNotFound(n@),
            BookmarksError::AllUrlsFailed => ErrorView::AllUrlsFailed,
            BookmarksError::BookmarksFileNotFound(p) => ErrorView::BookmarksFileNotFound(p@),
            BookmarksError::HomeDirUnavailable => ErrorView::HomeDirUnavailable,
        }
    }
}

/// `pre`, then `name`, then `post`.
pub open spec fn framed(pre: Seq<char>, name: Seq<char>, post: Seq<char>) -> Seq<char> {
    pre + name + post
}

/// The message of an error.
pub open spec fn error_message(e: ErrorView) -> Seq<char> {
    match e {
        ErrorView::UrlNotFound(n) => framed("url '"@, n, "' not found"@),
        ErrorView::UrlAlreadyExists(n) => framed("url '"@, n, "' already exists"@),
        ErrorView::ExistsAsAlias(n) => framed("'"@, n, "' already exists as an alias"@),
        ErrorView::ExistsAsUrlName(n) => framed("'"@, n, "' already exists as a url name"@),
        ErrorView::AliasNotFound(n) => framed("alias '"@, n, "' not found"@),
        ErrorView::AliasAlreadyExists(n) => framed("alias '"@, n, "' already exists"@),
        ErrorView::GroupNotFound(n) => framed("group '"@, n, "' not found"@),
        ErrorView::GroupAlreadyExists(n) => framed("group '"@, n, "' already exists"@),
        ErrorView::NameNotFound(n) => framed("'"@, n, "' not found in [urls] names or aliases"@),
        ErrorView::AllUrlsFailed => "all urls failed to open"@,
        ErrorView::BookmarksFileNotFound(p) => framed("bookmarks file not found: "@, p, ""@),
        ErrorView::HomeDirUnavailable => "Failed to get home directory"@,
    }
}

/// The string `pre`, `name`, `post`.
pub fn frame(pre: &str, name: &str, post: &str) -> (r: String)
    ensures
        r@ == framed(pre@, name@, post@),
{
    let s = copy_text(pre);
    let s = s.concat(name);
    s.concat(post)
}

impl BookmarksError {
    /// The message of the error.
    pub fn to_string(&self) -> (r: String)
        ensures
            r@ == error_message(self.deep_view()),
    {
        match self {
            BookmarksError::UrlNotFound(n) => frame("url '", n.as_str(), "' not found"),
            BookmarksError::UrlAlreadyExists(n) => frame("url '", n.as_str(), "' already exists"),
            BookmarksError::ExistsAsAlias(n) => frame(
                "'",
                n.as_str(),
                "' already exists as an alias",
            ),
            BookmarksError::ExistsAsUrlName(n) => frame(
                "'",
                n.as_str(),
                "' already exists as a url name",
            ),
            BookmarksError::AliasNotFound(n) => frame("alias '", n.as_str(), "' not found"),
            BookmarksError::AliasAlreadyExists(n) => frame(
                "alias '",
                n.as_str(),
                "' already exists",
            ),
            BookmarksError::GroupNotFound(n) => frame("group '", n.as_str(), "' not found"),
            BookmarksError::GroupAlreadyExists(n) => frame(
                "group '",
                n.as_str(),
                "' already exists",
            ),
            BookmarksError::NameNotFound(n) => frame(
                "'",
                n.as_str(),
                "' not found in [urls] names or aliases",
            ),
            BookmarksError::AllUrlsFailed => copy_text("all urls failed to open"),
            BookmarksError::BookmarksFileNotFound(p) => frame(
                "bookmarks file not found: ",
                p.as_str(),
                "",
            ),
            BookmarksError::HomeDirUnavailable => copy_text("Failed to get home directory"),
        }
    }
}

} // verus!
