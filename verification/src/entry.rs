//! A url entry: either a plain url or a url with aliases.
use vstd::prelude::*;

use crate::text::{copy_list, copy_text, list_contains};

verus! {

/// The test "differs from `alias`".
pub open spec fn other_than(alias: Seq<char>) -> spec_fn(Seq<char>) -> bool {
    |a: Seq<char>| a != alias
}

/// The abstract value of a `UrlEntry`: its strings taken by their characters.
pub enum UrlEntryView {
    Simple(Seq<char>),
    Full { url: Seq<char>, aliases: Seq<Seq<char>> },
}

impl UrlEntryView {
    /// The url of the entry.
    pub open spec fn url(self) -> Seq<char> {
        match self {
            UrlEntryView::Simple(u) => u,
            UrlEntryView::Full { url, .. } => url,
        }
    }

    /// The aliases of the entry; a plain url has none.
    pub open spec fn aliases(self) -> Seq<Seq<char>> {
        match self {
            UrlEntryView::Simple(_) => Seq::empty(),
            UrlEntryView::Full { aliases, .. } => aliases,
        }
    }

    /// Whether `alias` is one of the entry's aliases.
    pub open spec fn has_alias(self, alias: Seq<char>) -> bool {
        self.aliases().contains(alias)
    }

    /// The entry with its url replaced, in the same form.
    pub open spec fn with_url(self, new_url: Seq<char>) -> UrlEntryView {
        match self {
            UrlEntryView::Simple(_) => UrlEntryView::Simple(new_url),
            UrlEntryView::Full { aliases, .. } => UrlEntryView::Full { url: new_url, aliases },
        }
    }

    /// The entry after adding `alias`: a plain url becomes a full entry with
    /// that one alias; a full entry gains it at the end unless it has it already.
    pub open spec fn with_alias(self, alias: Seq<char>) -> UrlEntryView {
        match self {
            UrlEntryView::Simple(u) => UrlEntryView::Full { url: u, aliases: seq![alias] },
            UrlEntryView::Full { url, aliases } => if aliases.contains(alias) {
                self
            } else {
                UrlEntryView::Full { url, aliases: aliases.push(alias) }
            },
        }
    }

    /// The entry after removing every occurrence of `alias`; the form is kept.
    pub open spec fn without_alias(self, alias: Seq<char>) -> UrlEntryView {
        match self {
            UrlEntryView::Simple(_) => self,
            UrlEntryView::Full { url, aliases } => UrlEntryView::Full {
                url,
                aliases: aliases.filter(other_than(alias)),
            },
        }
    }
}

/// A URL entry: either a plain URL string or a URL with aliases.
#[derive(Debug, Clone, PartialEq)]
pub enum UrlEntry {
    Simple(String),
    Full { url: String, aliases: Vec<String> },
}

impl DeepView for UrlEntry {
    type V = UrlEntryView;

    open spec fn deep_view(&self) -> UrlEntryView {
        match self {
            UrlEntry::Simple(u) => UrlEntryView::Simple(u@),
            UrlEntry::Full { url, aliases } => UrlEntryView::Full {
                url: url@,
                aliases: aliases.deep_view(),
            },
        }
    }
}

/// Keeps the strings of `list` that differ from `alias`, in order.
fn without_name(list: &Vec<String>, alias: &str) -> (r: Vec<String>)
    ensures
        r.deep_view() == list.deep_view().filter(other_than(alias@)),
{
    let ghost keep = other_than(alias@);
    let target = alias.to_owned();
    let mut out: Vec<String> = Vec::new();
    let mut i: usize = 0;
    while i < list.len()
        invariant
            target@ == alias@,
            keep == other_than(alias@),
            i <= list@.len(),
            out.deep_view() == list.deep_view().take(i as int).filter(keep),
        decreases list@.len() - i,
    {
        let ghost before = out.deep_view();
        proof {
            assert(list.deep_view().take(i + 1) =~= list.deep_view().take(i as int).push(
                list@[i as int]@,
            ));
            list.deep_view().take(i as int).lemma_filter_push(list@[i as int]@, keep);
        }
        if !(list[i] == target) {
            out.push(list[i].as_str().to_owned());
            assert(out.deep_view() =~= before.push(list@[i as int]@));
        }
        i = i + 1;
    }
    assert(list.deep_view().take(list@.len() as int) =~= list.deep_view());
    out
}

/// The entry made from a url and optional aliases: a plain url unless some
/// aliases are given.
pub open spec fn entry_from_parts(url: Seq<char>, aliases: Option<Seq<Seq<char>>>) -> UrlEntryView {
    match aliases {
        Some(a) => if a.len() > 0 {
            UrlEntryView::Full { url, aliases: a }
        } else {
            UrlEntryView::Simple(url)
        },
        None => UrlEntryView::Simple(url),
    }
}

/// The aliases, if any, by their characters.
pub open spec fn aliases_view(aliases: Option<Vec<String>>) -> Option<Seq<Seq<char>>> {
    match aliases {
        Some(a) => Some(a.deep_view()),
        None => None,
    }
}

impl UrlEntry {
    /// An entry from a url and optional aliases: a plain url unless some
    /// aliases are given.
    pub fn new(url: String, aliases: Option<Vec<String>>) -> (r: UrlEntry)
        ensures
            r.deep_view() == entry_from_parts(url@, aliases_view(aliases)),
            r.deep_view().url() == url@,
            aliases matches Some(a) ==> r.deep_view().aliases() == a.deep_view(),
            aliases is None ==> r.deep_view() == UrlEntryView::Simple(url@),
            aliases matches Some(a) && a.len() == 0 ==> r.deep_view() == UrlEntryView::Simple(
                url@,
            ),
    {
        match aliases {
            Some(a) => {
                if a.len() > 0 {
                    UrlEntry::Full { url, aliases: a }
                } else {
                    UrlEntry::Simple(url)
                }
            },
            None => UrlEntry::Simple(url),
        }
    }

    /// The url of the entry.
    pub fn url(&self) -> (r: &str)
        ensures
            r@ == self.deep_view().url(),
    {
        match self {
            UrlEntry::Simple(url) => url.as_str(),
            UrlEntry::Full { url, .. } => url.as_str(),
        }
    }

    /// The aliases of the entry; none for a plain url.
    pub fn aliases(&self) -> (r: &[String])
        ensures
            r.deep_view() == self.deep_view().aliases(),
    {
        match self {
            UrlEntry::Simple(_) => {
                let r: &[String] = &[];
                assert(r.deep_view() =~= Seq::<Seq<char>>::empty());
                r
            },
            UrlEntry::Full { aliases, .. } => {
                let r = aliases.as_slice();
                assert(r.deep_view() =~= aliases.deep_view());
                r
            },
        }
    }

    /// Replaces the url, keeping the form of the entry and its aliases.
    pub fn set_url(&mut self, new_url: String)
        ensures
            final(self).deep_view() == old(self).deep_view().with_url(new_url@),
    {
        let updated = match self {
            UrlEntry::Simple(_) => UrlEntry::Simple(new_url),
            UrlEntry::Full { aliases, .. } => UrlEntry::Full {
                url: new_url,
                aliases: copy_list(aliases),
            },
        };
        *self = updated;
    }

    /// Adds an alias. A plain url becomes a full entry with this one alias; a
    /// full entry gains it at the end unless it has it already.
    pub fn add_alias(&mut self, alias: String)
        ensures
            final(self).deep_view() == old(self).deep_view().with_alias(alias@),
    {
        let updated = match self {
            UrlEntry::Simple(url) => {
                let v: Vec<String> = vec![alias];
                assert(v.deep_view() =~= seq![v@[0]@]);
                UrlEntry::Full { url: copy_text(url.as_str()), aliases: v }
            },
            UrlEntry::Full { url, aliases } => {
                let mut v = copy_list(aliases);
                let present = {
                    let s = v.as_slice();
                    let c = list_contains(s, alias.as_str());
                    assert(s.deep_view() =~= v.deep_view());
                    c
                };
                if !present {
                    let ghost before = v.deep_view();
                    v.push(alias);
                    assert(v.deep_view() =~= before.push(alias@));
                }
                UrlEntry::Full { url: copy_text(url.as_str()), aliases: v }
            },
        };
        *self = updated;
    }

    /// Removes every occurrence of an alias; a plain url is left as it is.
    pub fn remove_alias(&mut self, alias: &str)
        ensures
            final(self).deep_view() == old(self).deep_view().without_alias(alias@),
    {
        let updated = match self {
            UrlEntry::Simple(url) => UrlEntry::Simple(copy_text(url.as_str())),
            UrlEntry::Full { url, aliases } => UrlEntry::Full {
                url: copy_text(url.as_str()),
                aliases: without_name(aliases, alias),
            },
        };
        *self = updated;
    }

    /// Whether `alias` is one of the entry's aliases.
    pub fn has_alias(&self, alias: &str) -> (b: bool)
        ensures
            b == self.deep_view().has_alias(alias@),
    {
        list_contains(self.aliases(), alias)
    }

    /// A copy of the entry.
    pub(crate) fn duplicate(&self) -> (r: UrlEntry)
        ensures
            r.deep_view() == self.deep_view(),
    {
        match self {
            UrlEntry::Simple(url) => UrlEntry::Simple(copy_text(url.as_str())),
            UrlEntry::Full { url, aliases } => UrlEntry::Full {
                url: copy_text(url.as_str()),
                aliases: copy_list(aliases),
            },
        }
    }
}

} // verus!
