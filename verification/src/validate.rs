//! Consistency warnings of a configuration: an alias given to more than one
//! url, an alias that is also a url name, and a group entry that names nothing.
use vstd::prelude::*;

use crate::config::{resolve_name, Config, ConfigView, GroupsView, UrlsView};
use crate::error::framed;
use crate::name_map::{has_key, NameMap};
use crate::text::{copy_text, join2};

verus! {

/// One warning about a configuration.
pub enum WarningView {
    /// `alias` on the url `owner` was already given to the url `other`.
    DuplicateAlias { alias: Seq<char>, owner: Seq<char>, other: Seq<char> },
    /// `alias` on the url `owner` is also the name of a url.
    ShadowsUrlName { alias: Seq<char>, owner: Seq<char> },
    /// The group `group` lists `entry`, which is neither a url name nor an alias.
    UnknownGroupEntry { group: Seq<char>, entry: Seq<char> },
}

/// The text of a warning.
pub open spec fn warning_text(w: WarningView) -> Seq<char> {
    match w {
        WarningView::DuplicateAlias { alias, owner, other } => framed(
            "alias '"@,
            alias,
            "' is defined on both '"@,
        ) + framed(owner, "' and '"@, other) + "'"@,
        WarningView::ShadowsUrlName { alias, owner } => framed("alias '"@, alias, "' on '"@)
            + framed(owner, "' shadows url name '"@, alias) + "'"@,
        WarningView::UnknownGroupEntry { group, entry } => framed("group '"@, group, "' contains '"@)
            + entry + "' which is not a url name or alias"@,
    }
}

/// Every alias occurrence paired with the name of its url, in order.
pub open spec fn alias_occurrences(urls: UrlsView) -> Seq<(Seq<char>, Seq<char>)>
    decreases urls.len(),
{
    if urls.len() == 0 {
        Seq::empty()
    } else {
        let last = urls.last();
        alias_occurrences(urls.drop_last()) + last.1.aliases().map_values(
            |a: Seq<char>| (a, last.0),
        )
    }
}

/// For each alias, the url name it occurs on first.
pub open spec fn first_owners(occ: Seq<(Seq<char>, Seq<char>)>) -> Map<Seq<char>, Seq<char>>
    decreases occ.len(),
{
    if occ.len() == 0 {
        Map::empty()
    } else {
        let m = first_owners(occ.drop_last());
        let (a, o) = occ.last();
        if m.contains_key(a) {
            m
        } else {
            m.insert(a, o)
        }
    }
}

/// The warnings about one alias occurrence, given the first owners of the
/// aliases before it.
pub open spec fn occurrence_warnings(
    seen: Map<Seq<char>, Seq<char>>,
    a: Seq<char>,
    o: Seq<char>,
    urls: UrlsView,
) -> Seq<WarningView> {
    (if seen.contains_key(a) {
        seq![WarningView::DuplicateAlias { alias: a, owner: o, other: seen[a] }]
    } else {
        Seq::empty()
    }) + (if has_key(urls, a) {
        seq![WarningView::ShadowsUrlName { alias: a, owner: o }]
    } else {
        Seq::empty()
    })
}

/// The warnings about the alias occurrences `occ`, in order.
pub open spec fn alias_warnings(occ: Seq<(Seq<char>, Seq<char>)>, urls: UrlsView) -> Seq<
    WarningView,
>
    decreases occ.len(),
{
    if occ.len() == 0 {
        Seq::empty()
    } else {
        let (a, o) = occ.last();
        alias_warnings(occ.drop_last(), urls) + occurrence_warnings(
            first_owners(occ.drop_last()),
            a,
            o,
            urls,
        )
    }
}

/// Every group entry paired with the name of its group, in order.
pub open spec fn group_occurrences(groups: GroupsView) -> Seq<(Seq<char>, Seq<char>)>
    decreases groups.len(),
{
    if groups.len() == 0 {
        Seq::empty()
    } else {
        let last = groups.last();
        group_occurrences(groups.drop_last()) + last.1.map_values(|e: Seq<char>| (last.0, e))
    }
}

/// The warnings about group entries that name nothing, in order.
pub open spec fn group_warnings(occ: Seq<(Seq<char>, Seq<char>)>, urls: UrlsView) -> Seq<
    WarningView,
>
    decreases occ.len(),
{
    if occ.len() == 0 {
        Seq::empty()
    } else {
        let (g, e) = occ.last();
        group_warnings(occ.drop_last(), urls) + (if resolve_name(urls, e) is None {
            seq![WarningView::UnknownGroupEntry { group: g, entry: e }]
        } else {
            Seq::empty()
        })
    }
}

/// All warnings about a configuration: first those about aliases, then those
/// about groups.
pub open spec fn config_warnings(c: ConfigView) -> Seq<WarningView> {
    alias_warnings(alias_occurrences(c.urls), c.urls) + group_warnings(
        group_occurrences(c.groups),
        c.urls,
    )
}

/// The texts of warnings.
pub open spec fn warning_texts(ws: Seq<WarningView>) -> Seq<Seq<char>> {
    ws.map_values(|w: WarningView| warning_text(w))
}

fn duplicate_alias_text(alias: &str, owner: &str, other: &str) -> (r: String)
    ensures
        r@ == warning_text(WarningView::DuplicateAlias { alias: alias@, owner: owner@, other: other@ }),
{
    let a = crate::error::frame("alias '", alias, "' is defined on both '");
    let b = crate::error::frame(owner, "' and '", other);
    let s = join2(a.as_str(), b.as_str());
    join2(s.as_str(), "'")
}

fn shadow_text(alias: &str, owner: &str) -> (r: String)
    ensures
        r@ == warning_text(WarningView::ShadowsUrlName { alias: alias@, owner: owner@ }),
{
    let a = crate::error::frame("alias '", alias, "' on '");
    let b = crate::error::frame(owner, "' shadows url name '", alias);
    let s = join2(a.as_str(), b.as_str());
    join2(s.as_str(), "'")
}

fn unknown_entry_text(group: &str, entry: &str) -> (r: String)
    ensures
        r@ == warning_text(WarningView::UnknownGroupEntry { group: group@, entry: entry@ }),
{
    let a = crate::error::frame("group '", group, "' contains '");
    let b = join2(a.as_str(), entry);
    join2(b.as_str(), "' which is not a url name or alias")
}

impl Config {
    /// The consistency warnings of the configuration, as texts.
    pub fn validate(&self) -> (r: Vec<String>)
        requires
            self.wf(),
        ensures
            r.deep_view() == warning_texts(config_warnings(self@)),
    {
        let ghost urls = self@.urls;
        let mut warnings: Vec<String> = Vec::new();
        let mut seen: NameMap<String> = NameMap::new();
        let n = self.urls.len();
        let mut i: usize = 0;
        while i < n
            invariant
                self.wf(),
                urls == self@.urls,
                n == urls.len(),
                i <= n,
                seen.wf(),
                seen.map() == first_owners(alias_occurrences(urls.take(i as int))),
                warnings.deep_view() == warning_texts(
                    alias_warnings(alias_occurrences(urls.take(i as int)), urls),
                ),
            decreases n - i,
        {
            let owner = self.urls.key_at(i);
            let aliases = self.urls.value_at(i).aliases();
            let ghost base = alias_occurrences(urls.take(i as int));
            let ghost pairs = aliases.deep_view().map_values(|a: Seq<char>| (a, owner@));
            let mut j: usize = 0;
            while j < aliases.len()
                invariant
                    self.wf(),
                    urls == self@.urls,
                    i < n,
                    n == urls.len(),
                    owner@ == urls[i as int].0,
                    aliases.deep_view() == urls[i as int].1.aliases(),
                    base == alias_occurrences(urls.take(i as int)),
                    pairs == aliases.deep_view().map_values(|a: Seq<char>| (a, owner@)),
                    j <= aliases@.len(),
                    seen.wf(),
                    seen.map() == first_owners(base + pairs.take(j as int)),
                    warnings.deep_view() == warning_texts(
                        alias_warnings(base + pairs.take(j as int), urls),
                    ),
                decreases aliases@.len() - j,
            {
                let alias = aliases[j].as_str();
                let ghost prefix = base + pairs.take(j as int);
                let ghost next = base + pairs.take(j + 1);
                let ghost w_before = warnings.deep_view();
                proof {
                    assert(pairs[j as int] == (alias@, owner@));
                    assert(next =~= prefix.push((alias@, owner@)));
                    assert(next.drop_last() =~= prefix);
                }
                match seen.get(alias) {
                    Some(other) => {
                        let t = duplicate_alias_text(alias, owner.as_str(), other.as_str());
                        warnings.push(t);
                    },
                    None => {},
                }
                if self.urls.contains_key(alias) {
                    let t = shadow_text(alias, owner.as_str());
                    warnings.push(t);
                }
                assert(warnings.deep_view() =~= w_before + warning_texts(
                    occurrence_warnings(first_owners(prefix), alias@, owner@, urls),
                ));
                if !seen.contains_key(alias) {
                    seen.insert(copy_text(alias), copy_text(owner.as_str()));
                }
                assert(seen.map() =~= first_owners(next));
                j = j + 1;
            }
            proof {
                assert(urls.take(i + 1).drop_last() =~= urls.take(i as int));
                assert(urls.take(i + 1).last() == urls[i as int]);
                assert(pairs.take(aliases@.len() as int) =~= pairs);
                assert(alias_occurrences(urls.take(i + 1)) =~= base + pairs);
            }
            i = i + 1;
        }
        proof {
            assert(urls.take(n as int) =~= urls);
        }
        let ghost w_alias = warnings.deep_view();
        let ghost groups = self@.groups;
        let gn = self.groups.len();
        let mut g: usize = 0;
        while g < gn
            invariant
                self.wf(),
                urls == self@.urls,
                groups == self@.groups,
                gn == groups.len(),
                g <= gn,
                warnings.deep_view() == w_alias + warning_texts(
                    group_warnings(group_occurrences(groups.take(g as int)), urls),
                ),
            decreases gn - g,
        {
            let gname = self.groups.key_at(g);
            let entries = self.groups.value_at(g);
            let ghost base = group_occurrences(groups.take(g as int));
            let ghost pairs = entries.deep_view().map_values(|e: Seq<char>| (gname@, e));
            let mut j: usize = 0;
            while j < entries.len()
                invariant
                    self.wf(),
                    urls == self@.urls,
                    groups == self@.groups,
                    g < gn,
                    gn == groups.len(),
                    gname@ == groups[g as int].0,
                    entries.deep_view() == groups[g as int].1,
                    base == group_occurrences(groups.take(g as int)),
                    pairs == entries.deep_view().map_values(|e: Seq<char>| (gname@, e)),
                    j <= entries@.len(),
                    warnings.deep_view() == w_alias + warning_texts(
                        group_warnings(base + pairs.take(j as int), urls),
                    ),
                decreases entries@.len() - j,
            {
                let entry = entries[j].as_str();
                let ghost prefix = base + pairs.take(j as int);
                let ghost next = base + pairs.take(j + 1);
                let ghost w_before = warnings.deep_view();
                proof {
                    assert(pairs[j as int] == (gname@, entry@));
                    assert(next =~= prefix.push((gname@, entry@)));
                    assert(next.drop_last() =~= prefix);
                }
                let ghost step: Seq<WarningView> = if resolve_name(urls, entry@) is None {
                    seq![WarningView::UnknownGroupEntry { group: gname@, entry: entry@ }]
                } else {
                    Seq::empty()
                };
                assert(group_warnings(next, urls) == group_warnings(prefix, urls) + step);
                assert(warning_texts(group_warnings(next, urls)) =~= warning_texts(
                    group_warnings(prefix, urls),
                ) + warning_texts(step));
                if !self.contains(entry) {
                    let t = unknown_entry_text(gname.as_str(), entry);
                    warnings.push(t);
                }
                assert(warnings.deep_view() =~= w_before + warning_texts(step));
                assert(warnings.deep_view() =~= w_alias + warning_texts(group_warnings(next, urls)));
                j = j + 1;
            }
            proof {
                assert(groups.take(g + 1).drop_last() =~= groups.take(g as int));
                assert(groups.take(g + 1).last() == groups[g as int]);
                assert(pairs.take(entries@.len() as int) =~= pairs);
                assert(group_occurrences(groups.take(g + 1)) =~= base + pairs);
            }
            g = g + 1;
        }
        proof {
            assert(groups.take(gn as int) =~= groups);
            assert(warnings.deep_view() =~= warning_texts(config_warnings(self@)));
        }
        warnings
    }
}

} // verus!
