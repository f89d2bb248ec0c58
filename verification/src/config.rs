//! The bookmarks configuration: named urls with aliases, and named groups of
//! url names or aliases; name resolution and the editing operations.
use vstd::prelude::*;

use crate::entry::{aliases_view, entry_from_parts, UrlEntry, UrlEntryView};
use crate::error::{BookmarksError, ErrorView};
use crate::name_map::{
    has_key, inserted, key_index, lemma_key_index, lemma_remove_entry, value_of, NameMap,
};
use crate::text::{copy_text, list_contains, same_text};

verus! {

/// The url entries in order: name and entry.
pub type UrlsView = Seq<(Seq<char>, UrlEntryView)>;

/// The groups in order: name and the names it lists.
pub type GroupsView = Seq<(Seq<char>, Seq<Seq<char>>)>;

/// The abstract value of a `Config`.
#[verifier::ext_equal]
pub struct ConfigView {
    pub urls: UrlsView,
    pub groups: GroupsView,
}

/// The entry at position `i` has the alias `alias`.
pub open spec fn alias_at(urls: UrlsView, i: int, alias: Seq<char>) -> bool {
    urls[i].1.has_alias(alias)
}

/// Some entry has the alias `alias`.
pub open spec fn is_alias(urls: UrlsView, alias: Seq<char>) -> bool {
    exists|i: int| 0 <= i < urls.len() && #[trigger] alias_at(urls, i, alias)
}

/// Position `i` is the first entry with the alias `alias`.
pub open spec fn first_alias_at(urls: UrlsView, alias: Seq<char>, i: int) -> bool {
    &&& 0 <= i < urls.len()
    &&& alias_at(urls, i, alias)
    &&& forall|j: int| 0 <= j < i ==> !#[trigger] alias_at(urls, j, alias)
}

/// Position `i` is the last entry with the alias `alias`.
pub open spec fn last_alias_at(urls: UrlsView, alias: Seq<char>, i: int) -> bool {
    &&& 0 <= i < urls.len()
    &&& alias_at(urls, i, alias)
    &&& forall|j: int| i < j < urls.len() ==> !#[trigger] alias_at(urls, j, alias)
}

/// The position of the first entry with the alias (meaningful when `is_alias`).
pub open spec fn first_alias_index(urls: UrlsView, alias: Seq<char>) -> int {
    choose|i: int| first_alias_at(urls, alias, i)
}

/// The position of the last entry with the alias (meaningful when `is_alias`).
pub open spec fn last_alias_index(urls: UrlsView, alias: Seq<char>) -> int {
    choose|i: int| last_alias_at(urls, alias, i)
}

/// What a name stands for: the url of the entry of that name; otherwise the
/// url of the first entry that has it as an alias; otherwise nothing.
pub open spec fn resolve_name(urls: UrlsView, name: Seq<char>) -> Option<Seq<char>> {
    if has_key(urls, name) {
        Some(value_of(urls, name).url())
    } else if is_alias(urls, name) {
        Some(urls[first_alias_index(urls, name)].1.url())
    } else {
        None
    }
}

/// A name is known when it is a url name or an alias.
pub open spec fn is_known(urls: UrlsView, name: Seq<char>) -> bool {
    has_key(urls, name) || is_alias(urls, name)
}

/// If some entry has the alias, there is a first one.
pub proof fn lemma_first_alias(urls: UrlsView, alias: Seq<char>, k: int)
    requires
        0 <= k < urls.len(),
        alias_at(urls, k, alias),
    ensures
        first_alias_at(urls, alias, first_alias_index(urls, alias)),
        first_alias_index(urls, alias) <= k,
    decreases k,
{
    if forall|j: int| 0 <= j < k ==> !#[trigger] alias_at(urls, j, alias) {
        assert(first_alias_at(urls, alias, k));
    } else {
        let j = choose|j: int| 0 <= j < k && #[trigger] alias_at(urls, j, alias);
        lemma_first_alias(urls, alias, j);
    }
}

/// If some entry has the alias, there is a last one.
pub proof fn lemma_last_alias(urls: UrlsView, alias: Seq<char>, k: int)
    requires
        0 <= k < urls.len(),
        alias_at(urls, k, alias),
    ensures
        last_alias_at(urls, alias, last_alias_index(urls, alias)),
        last_alias_index(urls, alias) >= k,
    decreases urls.len() - k,
{
    if forall|j: int| k < j < urls.len() ==> !#[trigger] alias_at(urls, j, alias) {
        assert(last_alias_at(urls, alias, k));
    } else {
        let j = choose|j: int| k < j < urls.len() && #[trigger] alias_at(urls, j, alias);
        lemma_last_alias(urls, alias, j);
    }
}

/// A list of names with every `old` replaced by `new`.
pub open spec fn rename_in_list(list: Seq<Seq<char>>, old: Seq<char>, new: Seq<char>) -> Seq<
    Seq<char>,
> {
    list.map_values(|e: Seq<char>| if e == old { new } else { e })
}

/// The groups with every entry `old` replaced by `new`.
pub open spec fn rename_in_groups(groups: GroupsView, old: Seq<char>, new: Seq<char>) -> GroupsView {
    groups.map_values(
        |g: (Seq<char>, Seq<Seq<char>>)| (g.0, rename_in_list(g.1, old, new)),
    )
}

/// The groups with every entry that is in `doomed` left out.
pub open spec fn prune_groups(groups: GroupsView, doomed: Seq<Seq<char>>) -> GroupsView {
    groups.map_values(
        |g: (Seq<char>, Seq<Seq<char>>)|
            (g.0, g.1.filter(|e: Seq<char>| !doomed.contains(e))),
    )
}

/// The groups that list at least one name.
pub open spec fn drop_empty_groups(groups: GroupsView) -> GroupsView {
    groups.filter(|g: (Seq<char>, Seq<Seq<char>>)| g.1.len() > 0)
}

/// The outcome of renaming the url `old` to `new`.
pub open spec fn rename_url_result(c: ConfigView, old: Seq<char>, new: Seq<char>) -> Result<
    ConfigView,
    ErrorView,
> {
    if old == new {
        if has_key(c.urls, old) {
            Ok(c)
        } else {
            Err(ErrorView::UrlNotFound(old))
        }
    } else if has_key(c.urls, new) {
        Err(ErrorView::UrlAlreadyExists(new))
    } else if is_alias(c.urls, new) {
        Err(ErrorView::ExistsAsAlias(new))
    } else if !has_key(c.urls, old) {
        Err(ErrorView::UrlNotFound(old))
    } else {
        Ok(
            ConfigView {
                urls: c.urls.remove(key_index(c.urls, old)).push((new, value_of(c.urls, old))),
                groups: rename_in_groups(c.groups, old, new),
            },
        )
    }
}

/// The outcome of renaming the alias `old` to `new`. The alias is renamed on
/// the last entry that has it.
pub open spec fn rename_alias_result(c: ConfigView, old: Seq<char>, new: Seq<char>) -> Result<
    ConfigView,
    ErrorView,
> {
    if old == new {
        Ok(c)
    } else if has_key(c.urls, new) {
        Err(ErrorView::ExistsAsUrlName(new))
    } else if is_alias(c.urls, new) {
        Err(ErrorView::AliasAlreadyExists(new))
    } else if !is_alias(c.urls, old) {
        Err(ErrorView::AliasNotFound(old))
    } else {
        let i = last_alias_index(c.urls, old);
        Ok(
            ConfigView {
                urls: c.urls.update(i, (c.urls[i].0, c.urls[i].1.without_alias(old).with_alias(new))),
                groups: rename_in_groups(c.groups, old, new),
            },
        )
    }
}

/// The outcome of deleting the url `name`: its entry goes, group entries that
/// name it or one of its aliases go, and groups left empty go.
pub open spec fn delete_url_result(c: ConfigView, name: Seq<char>) -> Result<ConfigView, ErrorView> {
    if !has_key(c.urls, name) {
        Err(ErrorView::UrlNotFound(name))
    } else {
        let doomed = seq![name] + value_of(c.urls, name).aliases();
        Ok(
            ConfigView {
                urls: c.urls.remove(key_index(c.urls, name)),
                groups: drop_empty_groups(prune_groups(c.groups, doomed)),
            },
        )
    }
}

/// The outcome of deleting the alias `alias` from the last entry that has it:
/// group entries that name the alias go, and groups left empty go.
pub open spec fn delete_alias_result(c: ConfigView, alias: Seq<char>) -> Result<
    ConfigView,
    ErrorView,
> {
    if !is_alias(c.urls, alias) {
        Err(ErrorView::AliasNotFound(alias))
    } else {
        let i = last_alias_index(c.urls, alias);
        Ok(
            ConfigView {
                urls: c.urls.update(i, (c.urls[i].0, c.urls[i].1.without_alias(alias))),
                groups: drop_empty_groups(prune_groups(c.groups, seq![alias])),
            },
        )
    }
}

/// The outcome of renaming the group `old` to `new`.
pub open spec fn rename_group_result(c: ConfigView, old: Seq<char>, new: Seq<char>) -> Result<
    ConfigView,
    ErrorView,
> {
    if old != new && has_key(c.groups, new) {
        Err(ErrorView::GroupAlreadyExists(new))
    } else if !has_key(c.groups, old) {
        Err(ErrorView::GroupNotFound(old))
    } else {
        Ok(
            ConfigView {
                urls: c.urls,
                groups: c.groups.remove(key_index(c.groups, old)).push(
                    (new, value_of(c.groups, old)),
                ),
            },
        )
    }
}

/// The outcome of deleting the group `name`.
pub open spec fn delete_group_result(c: ConfigView, name: Seq<char>) -> Result<
    ConfigView,
    ErrorView,
> {
    if !has_key(c.groups, name) {
        Err(ErrorView::GroupNotFound(name))
    } else {
        Ok(ConfigView { urls: c.urls, groups: c.groups.remove(key_index(c.groups, name)) })
    }
}

/// What an editing operation did: on success the new configuration, on
/// failure the error, with the configuration left as it was.
pub open spec fn edit_matches(
    expected: Result<ConfigView, ErrorView>,
    before: ConfigView,
    after: ConfigView,
    r: Result<(), BookmarksError>,
) -> bool {
    match r {
        Ok(_) => expected == Ok::<ConfigView, ErrorView>(after),
        Err(e) => expected == Err::<ConfigView, ErrorView>(e.deep_view()) && after == before,
    }
}

/// A resolved name as characters.
pub open spec fn str_option_view(r: Option<&str>) -> Option<Seq<char>> {
    match r {
        Some(s) => Some(s@),
        None => None,
    }
}

/// The bookmarks configuration.
#[derive(Debug, Clone)]
pub struct Config {
    pub urls: NameMap<UrlEntry>,
    pub groups: NameMap<Vec<String>>,
}

impl View for Config {
    type V = ConfigView;

    open spec fn view(&self) -> ConfigView {
        ConfigView { urls: self.urls@, groups: self.groups@ }
    }
}

impl Default for Config {
    /// An empty configuration.
    fn default() -> (c: Config)
        ensures
            c.wf(),
            c@.urls.len() == 0,
            c@.groups.len() == 0,
    {
        Config::new()
    }
}

impl Config {
    /// Both maps are well formed.
    pub open spec fn wf(&self) -> bool {
        self.urls.wf() && self.groups.wf()
    }

    /// An empty configuration.
    pub fn new() -> (c: Config)
        ensures
            c.wf(),
            c@.urls.len() == 0,
            c@.groups.len() == 0,
    {
        Config { urls: NameMap::new(), groups: NameMap::new() }
    }

    /// Adds a url under `name`, replacing any url of that name: a plain url
    /// unless some aliases are given.
    pub fn add_url(&mut self, name: String, url: String, aliases: Option<Vec<String>>)
        requires
            old(self).wf(),
        ensures
            final(self).wf(),
            final(self)@.groups == old(self)@.groups,
            final(self)@.urls == inserted(
                old(self)@.urls,
                name@,
                entry_from_parts(url@, aliases_view(aliases)),
            ),
            has_key(final(self)@.urls, name@),
            value_of(final(self)@.urls, name@).url() == url@,
            aliases matches Some(a) ==> value_of(final(self)@.urls, name@).aliases()
                == a.deep_view(),
            aliases is None ==> value_of(final(self)@.urls, name@) == UrlEntryView::Simple(url@),
    {
        let ghost entry_view = entry_from_parts(url@, aliases_view(aliases));
        let entry = UrlEntry::new(url, aliases);
        let ghost before = self@.urls;
        self.urls.insert(name, entry);
        proof {
            crate::laws::law_insert_then_lookup(before, name@, entry_view);
        }
    }

    /// Resolve a name (url name or alias) to a URL string.
    pub fn resolve(&self, name: &str) -> (r: Option<&str>)
        requires
            self.wf(),
        ensures
            str_option_view(r) == resolve_name(self@.urls, name@),
    {
        if let Some(entry) = self.urls.get(name) {
            return Some(entry.url());
        }
        let n = self.urls.len();
        let mut i: usize = 0;
        while i < n
            invariant
                self.wf(),
                n == self@.urls.len(),
                i <= n,
                !has_key(self@.urls, name@),
                forall|j: int| 0 <= j < i ==> !#[trigger] alias_at(self@.urls, j, name@),
            decreases n - i,
        {
            let entry = self.urls.value_at(i);
            if entry.has_alias(name) {
                assert(first_alias_at(self@.urls, name@, i as int));
                proof {
                    lemma_first_alias(self@.urls, name@, i as int);
                }
                return Some(entry.url());
            }
            i = i + 1;
        }
        None
    }

    /// Check if a name is a known url name or alias.
    pub fn contains(&self, name: &str) -> (b: bool)
        requires
            self.wf(),
        ensures
            b == resolve_name(self@.urls, name@) is Some,
            b == is_known(self@.urls, name@),
    {
        self.resolve(name).is_some()
    }

    /// Whether some entry has the alias `alias`.
    pub fn alias_exists(&self, alias: &str) -> (b: bool)
        requires
            self.wf(),
        ensures
            b == is_alias(self@.urls, alias@),
    {
        self.last_alias_owner(alias).is_some()
    }

    /// The position of the last entry that has the alias `alias`, if any.
    pub fn last_alias_owner(&self, alias: &str) -> (r: Option<usize>)
        requires
            self.wf(),
        ensures
            r is None <==> !is_alias(self@.urls, alias@),
            r matches Some(i) ==> last_alias_at(self@.urls, alias@, i as int) && i
                == last_alias_index(self@.urls, alias@),
    {
        let mut i: usize = self.urls.len();
        while i > 0
            invariant
                self.wf(),
                i <= self@.urls.len(),
                forall|j: int| i <= j < self@.urls.len() ==> !#[trigger] alias_at(self@.urls, j, alias@),
            decreases i,
        {
            let k = i - 1;
            if self.urls.value_at(k).has_alias(alias) {
                assert(last_alias_at(self@.urls, alias@, k as int));
                proof {
                    lemma_last_alias(self@.urls, alias@, k as int);
                }
                return Some(k);
            }
            i = k;
        }
        None
    }

    /// Replaces every group entry `old` by `new`.
    fn rename_in_all_groups(&mut self, from: &str, to: &str)
        requires
            old(self).wf(),
        ensures
            final(self).wf(),
            final(self)@.urls == old(self)@.urls,
            final(self)@.groups == rename_in_groups(old(self)@.groups, from@, to@),
    {
        let ghost orig = self@.groups;
        let n = self.groups.len();
        let mut g: usize = 0;
        while g < n
            invariant
                self.wf(),
                self@.urls == old(self)@.urls,
                n == orig.len(),
                g <= n,
                self@.groups.len() == n,
                forall|k: int|
                    0 <= k < g ==> #[trigger] self@.groups[k] == (
                        orig[k].0,
                        rename_in_list(orig[k].1, from@, to@),
                    ),
                forall|k: int| g <= k < n ==> #[trigger] self@.groups[k] == orig[k],
            decreases n - g,
        {
            let list = self.groups.value_at(g);
            let mut renamed: Vec<String> = Vec::new();
            let mut j: usize = 0;
            while j < list.len()
                invariant
                    list.deep_view() == orig[g as int].1,
                    j <= list@.len(),
                    renamed@.len() == j,
                    forall|m: int|
                        0 <= m < j ==> (#[trigger] renamed@[m])@ == (if list@[m]@ == from@ {
                            to@
                        } else {
                            list@[m]@
                        }),
                decreases list@.len() - j,
            {
                if same_text(list[j].as_str(), from) {
                    renamed.push(copy_text(to));
                } else {
                    renamed.push(copy_text(list[j].as_str()));
                }
                j = j + 1;
            }
            assert(renamed.deep_view() =~= rename_in_list(orig[g as int].1, from@, to@));
            self.groups.set_value_at(g, renamed);
            g = g + 1;
        }
        assert(self@.groups =~= rename_in_groups(orig, from@, to@));
    }

    /// Leaves out of every group the entries listed in `doomed`, then drops
    /// the groups left empty (and any that were empty).
    fn prune_all_groups(&mut self, doomed: &Vec<String>)
        requires
            old(self).wf(),
        ensures
            final(self).wf(),
            final(self)@.urls == old(self)@.urls,
            final(self)@.groups == drop_empty_groups(
                prune_groups(old(self)@.groups, doomed.deep_view()),
            ),
    {
        let ghost orig = self@.groups;
        let ghost dv = doomed.deep_view();
        let ghost keep = |e: Seq<char>| !dv.contains(e);
        let n = self.groups.len();
        let mut g: usize = 0;
        while g < n
            invariant
                self.wf(),
                self@.urls == old(self)@.urls,
                dv == doomed.deep_view(),
                keep == (|e: Seq<char>| !dv.contains(e)),
                n == orig.len(),
                g <= n,
                self@.groups.len() == n,
                forall|k: int|
                    0 <= k < g ==> #[trigger] self@.groups[k] == (orig[k].0, orig[k].1.filter(keep)),
                forall|k: int| g <= k < n ==> #[trigger] self@.groups[k] == orig[k],
            decreases n - g,
        {
            let list = self.groups.value_at(g);
            let mut kept: Vec<String> = Vec::new();
            let mut j: usize = 0;
            while j < list.len()
                invariant
                    list.deep_view() == orig[g as int].1,
                    dv == doomed.deep_view(),
                    keep == (|e: Seq<char>| !dv.contains(e)),
                    j <= list@.len(),
                    kept.deep_view() == list.deep_view().take(j as int).filter(keep),
                decreases list@.len() - j,
            {
                let ghost before = kept.deep_view();
                proof {
                    assert(list.deep_view().take(j + 1) =~= list.deep_view().take(j as int).push(
                        list@[j as int]@,
                    ));
                    list.deep_view().take(j as int).lemma_filter_push(list@[j as int]@, keep);
                }
                let gone = {
                    let d = doomed.as_slice();
                    let c = list_contains(d, list[j].as_str());
                    assert(d.deep_view() =~= dv);
                    c
                };
                if !gone {
                    kept.push(copy_text(list[j].as_str()));
                    assert(kept.deep_view() =~= before.push(list@[j as int]@));
                }
                j = j + 1;
            }
            assert(list.deep_view().take(list@.len() as int) =~= list.deep_view());
            self.groups.set_value_at(g, kept);
            g = g + 1;
        }
        let ghost pruned = self@.groups;
        assert(pruned =~= prune_groups(orig, dv));
        self.drop_empty_groups();
    }

    /// Drops the groups that list no name.
    fn drop_empty_groups(&mut self)
        requires
            old(self).wf(),
        ensures
            final(self).wf(),
            final(self)@.urls == old(self)@.urls,
            final(self)@.groups == drop_empty_groups(old(self)@.groups),
    {
        let ghost orig = self@.groups;
        let ghost nonempty = |g: (Seq<char>, Seq<Seq<char>>)| g.1.len() > 0;
        let n = self.groups.len();
        let mut i: usize = 0;
        let mut j: usize = 0;
        while j < n
            invariant
                self.wf(),
                self@.urls == old(self)@.urls,
                nonempty == (|g: (Seq<char>, Seq<Seq<char>>)| g.1.len() > 0),
                n == orig.len(),
                j <= n,
                i == orig.take(j as int).filter(nonempty).len(),
                self@.groups == orig.take(j as int).filter(nonempty) + orig.skip(j as int),
            decreases n - j,
        {
            proof {
                assert(orig.take(j + 1) =~= orig.take(j as int).push(orig[j as int]));
                orig.take(j as int).lemma_filter_push(orig[j as int], nonempty);
                assert(self@.groups[i as int] == orig[j as int]);
            }
            let ghost kept = orig.take(j as int).filter(nonempty);
            if self.groups.value_at(i).len() == 0 {
                self.groups.remove_at(i);
                assert(self@.groups =~= kept + orig.skip(j + 1));
            } else {
                assert(self@.groups =~= kept.push(orig[j as int]) + orig.skip(j + 1));
                i = i + 1;
            }
            j = j + 1;
        }
        assert(orig.take(n as int) =~= orig);
        assert(self@.groups =~= orig.filter(nonempty));
    }

    /// Rename a url key and cascade to group entries that reference it by name.
    pub fn rename_url(&mut self, from: &str, to: &str) -> (r: Result<(), BookmarksError>)
        requires
            old(self).wf(),
        ensures
            final(self).wf(),
            edit_matches(rename_url_result(old(self)@, from@, to@), old(self)@, final(self)@, r),
    {
        if same_text(from, to) {
            if self.urls.contains_key(from) {
                return Ok(());
            }
            return Err(BookmarksError::UrlNotFound(copy_text(from)));
        }
        if self.urls.contains_key(to) {
            return Err(BookmarksError::UrlAlreadyExists(copy_text(to)));
        }
        if self.alias_exists(to) {
            return Err(BookmarksError::ExistsAsAlias(copy_text(to)));
        }
        let ghost before = self@;
        let entry = match self.urls.remove(from) {
            Some(e) => e,
            None => return Err(BookmarksError::UrlNotFound(copy_text(from))),
        };
        proof {
            lemma_remove_entry(before.urls, key_index(before.urls, from@));
            lemma_key_index(before.urls, key_index(before.urls, from@));
        }
        self.urls.insert(copy_text(to), entry);
        self.rename_in_all_groups(from, to);
        assert(self@ =~= rename_url_result(before, from@, to@)->Ok_0);
        Ok(())
    }

    /// Rename an alias and cascade to group entries.
    pub fn rename_alias(&mut self, from: &str, to: &str) -> (r: Result<(), BookmarksError>)
        requires
            old(self).wf(),
        ensures
            final(self).wf(),
            edit_matches(rename_alias_result(old(self)@, from@, to@), old(self)@, final(self)@, r),
    {
        if same_text(from, to) {
            return Ok(());
        }
        if self.urls.contains_key(to) {
            return Err(BookmarksError::ExistsAsUrlName(copy_text(to)));
        }
        if self.alias_exists(to) {
            return Err(BookmarksError::AliasAlreadyExists(copy_text(to)));
        }
        let ghost before = self@;
        let i = match self.last_alias_owner(from) {
            Some(i) => i,
            None => return Err(BookmarksError::AliasNotFound(copy_text(from))),
        };
        let mut entry = self.urls.value_at(i).duplicate();
        entry.remove_alias(from);
        entry.add_alias(copy_text(to));
        self.urls.set_value_at(i, entry);
        self.rename_in_all_groups(from, to);
        assert(self@ =~= rename_alias_result(before, from@, to@)->Ok_0);
        Ok(())
    }

    /// Delete a url and clean up group references to it and its aliases.
    pub fn delete_url(&mut self, name: &str) -> (r: Result<(), BookmarksError>)
        requires
            old(self).wf(),
        ensures
            final(self).wf(),
            edit_matches(delete_url_result(old(self)@, name@), old(self)@, final(self)@, r),
    {
        let ghost before = self@;
        let entry = match self.urls.remove(name) {
            Some(e) => e,
            None => return Err(BookmarksError::UrlNotFound(copy_text(name))),
        };
        let mut doomed: Vec<String> = Vec::new();
        doomed.push(copy_text(name));
        let aliases = entry.aliases();
        let mut k: usize = 0;
        while k < aliases.len()
            invariant
                doomed@.len() == k + 1,
                doomed@[0]@ == name@,
                aliases.deep_view() == value_of(before.urls, name@).aliases(),
                k <= aliases@.len(),
                forall|m: int| 1 <= m <= k ==> (#[trigger] doomed@[m])@ == aliases@[m - 1]@,
            decreases aliases@.len() - k,
        {
            doomed.push(copy_text(aliases[k].as_str()));
            k = k + 1;
        }
        assert(doomed.deep_view() =~= seq![name@] + aliases.deep_view());
        self.prune_all_groups(&doomed);
        assert(self@ =~= delete_url_result(before, name@)->Ok_0);
        Ok(())
    }

    /// Delete an alias from its parent url and clean up group references.
    pub fn delete_alias(&mut self, alias: &str) -> (r: Result<(), BookmarksError>)
        requires
            old(self).wf(),
        ensures
            final(self).wf(),
            edit_matches(delete_alias_result(old(self)@, alias@), old(self)@, final(self)@, r),
    {
        let ghost before = self@;
        let i = match self.last_alias_owner(alias) {
            Some(i) => i,
            None => return Err(BookmarksError::AliasNotFound(copy_text(alias))),
        };
        let mut entry = self.urls.value_at(i).duplicate();
        entry.remove_alias(alias);
        self.urls.set_value_at(i, entry);
        let doomed: Vec<String> = vec![copy_text(alias)];
        assert(doomed.deep_view() =~= seq![alias@]);
        self.prune_all_groups(&doomed);
        assert(self@ =~= delete_alias_result(before, alias@)->Ok_0);
        Ok(())
    }

    /// Rename a group key.
    pub fn rename_group(&mut self, from: &str, to: &str) -> (r: Result<(), BookmarksError>)
        requires
            old(self).wf(),
        ensures
            final(self).wf(),
            edit_matches(rename_group_result(old(self)@, from@, to@), old(self)@, final(self)@, r),
    {
        let ghost before = self@;
        if !same_text(from, to) && self.groups.contains_key(to) {
            return Err(BookmarksError::GroupAlreadyExists(copy_text(to)));
        }
        let entries = match self.groups.remove(from) {
            Some(e) => e,
            None => return Err(BookmarksError::GroupNotFound(copy_text(from))),
        };
        proof {
            lemma_remove_entry(before.groups, key_index(before.groups, from@));
            lemma_key_index(before.groups, key_index(before.groups, from@));
        }
        self.groups.insert(copy_text(to), entries);
        assert(self@ =~= rename_group_result(before, from@, to@)->Ok_0);
        Ok(())
    }

    /// Delete a group.
    pub fn delete_group(&mut self, name: &str) -> (r: Result<(), BookmarksError>)
        requires
            old(self).wf(),
        ensures
            final(self).wf(),
            edit_matches(delete_group_result(old(self)@, name@), old(self)@, final(self)@, r),
    {
        let ghost before = self@;
        match self.groups.remove(name) {
            Some(_) => {
                assert(self@ =~= delete_group_result(before, name@)->Ok_0);
                Ok(())
            },
            None => Err(BookmarksError::GroupNotFound(copy_text(name))),
        }
    }
}

} // verus!
