//! Editing a configuration that has no warnings keeps it free of warnings.
use vstd::prelude::*;

use crate::config::{
    alias_at, delete_alias_result, delete_group_result, delete_url_result, drop_empty_groups,
    last_alias_index, lemma_last_alias, prune_groups, rename_alias_result,
    rename_group_result, rename_in_list, rename_url_result, resolve_name, ConfigView, GroupsView,
    UrlsView,
};
use crate::entry::{other_than, UrlEntryView};
use crate::laws::{
    aliases_unique, group_entries_resolve, law_alias_occurrences, law_no_warnings,
    law_resolution, no_alias_is_url_name,
};
use crate::name_map::{
    distinct_keys, has_key, key_index, lemma_key_index, lemma_push_entry, lemma_remove_entry,
    lemma_update_entry, value_of,
};
use crate::validate::{alias_occurrences, config_warnings, group_occurrences};

verus! {

/// No url lists an alias twice, and no two urls share an alias.
pub open spec fn aliases_unique_by_entry(urls: UrlsView) -> bool {
    &&& forall|i: int| 0 <= i < urls.len() ==> (#[trigger] urls[i]).1.aliases().no_duplicates()
    &&& forall|i: int, j: int, a: Seq<char>|
        0 <= i < urls.len() && 0 <= j < urls.len() && i != j && #[trigger] urls[i].1.has_alias(a)
            ==> !#[trigger] urls[j].1.has_alias(a)
}

/// No alias of any url is a name in `names`.
pub open spec fn no_alias_is_name_of(urls: UrlsView, names: UrlsView) -> bool {
    forall|i: int, a: Seq<char>|
        0 <= i < urls.len() && #[trigger] urls[i].1.has_alias(a) ==> !has_key(names, a)
}

/// Every name that a group lists resolves.
pub open spec fn group_members_resolve(groups: GroupsView, urls: UrlsView) -> bool {
    forall|k: int, x: Seq<char>|
        0 <= k < groups.len() && #[trigger] groups[k].1.contains(x) ==> resolve_name(urls, x) is Some
}

/// Alias occurrences are unique exactly when no url repeats an alias and no two
/// urls share one.
pub proof fn lemma_unique_occurrences(urls: UrlsView)
    ensures
        aliases_unique(alias_occurrences(urls)) <==> aliases_unique_by_entry(urls),
    decreases urls.len(),
{
    if urls.len() > 0 {
        let prev = urls.drop_last();
        let last = urls.last();
        let li = urls.len() - 1;
        let al = last.1.aliases();
        let x = alias_occurrences(prev);
        let p = al.map_values(|a: Seq<char>| (a, last.0));
        let occ = alias_occurrences(urls);
        let n = x.len();
        lemma_unique_occurrences(prev);
        assert(occ == x + p);
        assert(urls[li] == last);
        assert forall|i: int| 0 <= i < prev.len() implies #[trigger] urls[i] == prev[i] by {}
        if aliases_unique(occ) {
            assert forall|a: int, b: int|
                #![trigger x[a], x[b]]
                0 <= a < n && 0 <= b < n && a != b implies x[a].0 != x[b].0 by {
                assert(occ[a] == x[a] && occ[b] == x[b]);
            }
            assert(al.no_duplicates()) by {
                assert forall|m1: int, m2: int|
                    0 <= m1 < al.len() && 0 <= m2 < al.len() && m1 != m2 implies al[m1]
                    != al[m2] by {
                    assert(occ[n + m1] == p[m1] && occ[n + m2] == p[m2]);
                }
            }
            assert forall|i: int, j: int, a: Seq<char>|
                0 <= i < urls.len() && 0 <= j < urls.len() && i != j && #[trigger] urls[i].1.has_alias(
                    a,
                ) implies !#[trigger] urls[j].1.has_alias(a) by {
                if urls[j].1.has_alias(a) {
                    if i < li && j < li {
                        assert(prev[i].1.has_alias(a) && prev[j].1.has_alias(a));
                    } else {
                        let (k, l) = if i < li { (i, j) } else { (j, i) };
                        assert(l == li);
                        law_alias_occurrences(prev, a, prev[k].0);
                        assert(x.contains((a, prev[k].0)));
                        let q = choose|q: int| 0 <= q < x.len() && x[q] == (a, prev[k].0);
                        let m = choose|m: int| 0 <= m < al.len() && al[m] == a;
                        assert(occ[q].0 == a);
                        assert(occ[n + m] == p[m]);
                        assert(occ[n + m].0 == a);
                    }
                }
            }
        }
        if aliases_unique_by_entry(urls) {
            assert(aliases_unique_by_entry(prev)) by {
                assert forall|i: int| 0 <= i < prev.len() implies (#[trigger] prev[i]).1.aliases().no_duplicates() by {
                    assert(urls[i] == prev[i]);
                }
                assert forall|i: int, j: int, a: Seq<char>|
                    0 <= i < prev.len() && 0 <= j < prev.len() && i != j
                        && #[trigger] prev[i].1.has_alias(a) implies !#[trigger] prev[j].1.has_alias(
                    a,
                ) by {
                    assert(urls[i] == prev[i] && urls[j] == prev[j]);
                    assert(urls[i].1.has_alias(a));
                }
            }
            assert(urls[li].1.aliases().no_duplicates());
            assert forall|a: int, b: int|
                #![trigger occ[a], occ[b]]
                0 <= a < occ.len() && 0 <= b < occ.len() && a != b implies occ[a].0 != occ[b].0 by {
                if a < n && b < n {
                    assert(occ[a] == x[a] && occ[b] == x[b]);
                } else if a >= n && b >= n {
                    assert(occ[a] == p[a - n] && occ[b] == p[b - n]);
                    assert(al[a - n] != al[b - n]);
                } else {
                    let (s, t) = if a < n { (a, b) } else { (b, a) };
                    assert(occ[s] == x[s] && occ[t] == p[t - n]);
                    if occ[s].0 == occ[t].0 {
                        let aa = x[s].0;
                        assert(x.contains((aa, x[s].1)));
                        law_alias_occurrences(prev, aa, x[s].1);
                        let j = choose|j: int|
                            0 <= j < prev.len() && (#[trigger] prev[j]).0 == x[s].1
                                && prev[j].1.has_alias(aa);
                        assert(urls[j].1.has_alias(aa));
                        assert(al[t - n] == aa);
                        assert(urls[li].1.has_alias(aa));
                    }
                }
            }
        }
    }
}

/// No alias occurrence names a url exactly when no alias of any url does.
pub proof fn lemma_no_alias_key(urls: UrlsView, names: UrlsView)
    ensures
        no_alias_is_url_name(alias_occurrences(urls), names) <==> no_alias_is_name_of(urls, names),
{
    let occ = alias_occurrences(urls);
    if no_alias_is_url_name(occ, names) {
        assert forall|i: int, a: Seq<char>|
            0 <= i < urls.len() && #[trigger] urls[i].1.has_alias(a) implies !has_key(names, a) by {
            law_alias_occurrences(urls, a, urls[i].0);
            let q = choose|q: int| 0 <= q < occ.len() && occ[q] == (a, urls[i].0);
            assert(!has_key(names, occ[q].0));
        }
    }
    if no_alias_is_name_of(urls, names) {
        assert forall|q: int| 0 <= q < occ.len() implies !has_key(names, (#[trigger] occ[q]).0) by {
            assert(occ.contains(occ[q]));
            law_alias_occurrences(urls, occ[q].0, occ[q].1);
            let i = choose|i: int|
                0 <= i < urls.len() && (#[trigger] urls[i]).0 == occ[q].1 && urls[i].1.has_alias(
                    occ[q].0,
                );
        }
    }
}

/// A group occurrence is a name a group lists, paired with the group's name.
pub proof fn law_group_occurrences(groups: GroupsView, g: Seq<char>, x: Seq<char>)
    ensures
        group_occurrences(groups).contains((g, x)) <==> exists|k: int|
            0 <= k < groups.len() && (#[trigger] groups[k]).0 == g && groups[k].1.contains(x),
    decreases groups.len(),
{
    if groups.len() > 0 {
        let prev = groups.drop_last();
        let last = groups.last();
        let tail = last.1.map_values(|e: Seq<char>| (last.0, e));
        law_group_occurrences(prev, g, x);
        let occ = group_occurrences(groups);
        let a = group_occurrences(prev);
        assert(occ == a + tail);
        if occ.contains((g, x)) {
            let p = choose|p: int| 0 <= p < occ.len() && occ[p] == (g, x);
            if p < a.len() {
                assert(a[p] == (g, x));
                let k = choose|k: int| 0 <= k < prev.len() && (#[trigger] prev[k]).0 == g && prev[k].1.contains(x);
                assert(groups[k] == prev[k]);
            } else {
                let m = p - a.len();
                assert(tail[m] == (g, x));
                assert(last.1[m] == x);
                assert(groups[groups.len() - 1] == last);
            }
        }
        if exists|k: int| 0 <= k < groups.len() && (#[trigger] groups[k]).0 == g && groups[k].1.contains(x) {
            let k = choose|k: int| 0 <= k < groups.len() && (#[trigger] groups[k]).0 == g && groups[k].1.contains(x);
            if k < prev.len() {
                assert(prev[k] == groups[k]);
                let p = choose|p: int| 0 <= p < a.len() && a[p] == (g, x);
                assert(occ[p] == (g, x));
            } else {
                assert(groups[k] == last);
                let m = choose|m: int| 0 <= m < last.1.len() && last.1[m] == x;
                assert(occ[a.len() + m] == tail[m]);
            }
        }
    }
}

/// Every group occurrence resolves exactly when every name a group lists does.
pub proof fn lemma_group_members(groups: GroupsView, urls: UrlsView)
    ensures
        group_entries_resolve(group_occurrences(groups), urls) <==> group_members_resolve(groups, urls),
{
    let occ = group_occurrences(groups);
    if group_entries_resolve(occ, urls) {
        assert forall|k: int, x: Seq<char>|
            0 <= k < groups.len() && #[trigger] groups[k].1.contains(x) implies resolve_name(
            urls,
            x,
        ) is Some by {
            law_group_occurrences(groups, groups[k].0, x);
            let q = choose|q: int| 0 <= q < occ.len() && occ[q] == (groups[k].0, x);
            assert(resolve_name(urls, occ[q].1) is Some);
        }
    }
    if group_members_resolve(groups, urls) {
        assert forall|q: int| 0 <= q < occ.len() implies resolve_name(urls, (#[trigger] occ[q]).1) is Some by {
            assert(occ.contains(occ[q]));
            law_group_occurrences(groups, occ[q].0, occ[q].1);
            let k = choose|k: int|
                0 <= k < groups.len() && (#[trigger] groups[k]).0 == occ[q].0 && groups[k].1.contains(
                    occ[q].1,
                );
        }
    }
}

/// A configuration has no warnings exactly when no url repeats an alias, no two
/// urls share an alias, no alias is a url name, and every name a group lists
/// resolves.
pub proof fn law_no_warnings_by_entry(c: ConfigView)
    ensures
        config_warnings(c).len() == 0 <==> {
            &&& aliases_unique_by_entry(c.urls)
            &&& no_alias_is_name_of(c.urls, c.urls)
            &&& group_members_resolve(c.groups, c.urls)
        },
{
    law_no_warnings(c);
    lemma_unique_occurrences(c.urls);
    lemma_no_alias_key(c.urls, c.urls);
    lemma_group_members(c.groups, c.urls);
}

proof fn lemma_filter_no_duplicates(s: Seq<Seq<char>>, keep: spec_fn(Seq<char>) -> bool)
    requires
        s.no_duplicates(),
    ensures
        s.filter(keep).no_duplicates(),
    decreases s.len(),
{
    if s.len() > 0 {
        let prev = s.drop_last();
        assert(prev.no_duplicates()) by {
            assert forall|i: int, j: int|
                0 <= i < prev.len() && 0 <= j < prev.len() && i != j implies prev[i] != prev[j] by {
                assert(s[i] == prev[i] && s[j] == prev[j]);
            }
        }
        lemma_filter_no_duplicates(prev, keep);
        assert(s == prev.push(s.last()));
        prev.lemma_filter_push(s.last(), keep);
        if keep(s.last()) {
            let f = prev.filter(keep);
            if f.contains(s.last()) {
                prev.lemma_filter_contains_rev(keep, s.last());
                let i = choose|i: int| 0 <= i < prev.len() && prev[i] == s.last();
                assert(s[i] == s[s.len() - 1]);
            }
            assert forall|i: int, j: int|
                0 <= i < f.push(s.last()).len() && 0 <= j < f.push(s.last()).len() && i != j implies f.push(
                s.last(),
            )[i] != f.push(s.last())[j] by {
                if i < f.len() && j < f.len() {
                } else if i < f.len() {
                    assert(f.contains(f[i]));
                } else {
                    assert(f.contains(f[j]));
                }
            }
        }
    }
}

/// Renaming an alias of a configuration that has no warnings leaves it without
/// warnings.
pub proof fn law_rename_alias_keeps_no_warnings(
    c: ConfigView,
    old: Seq<char>,
    new: Seq<char>,
    after: ConfigView,
)
    requires
        distinct_keys(c.urls),
        config_warnings(c).len() == 0,
        rename_alias_result(c, old, new) == Ok::<ConfigView, crate::error::ErrorView>(after),
    ensures
        config_warnings(after).len() == 0,
{
    if old != new {
        law_no_warnings_by_entry(c);
        law_no_warnings_by_entry(after);
        let k0 = choose|k: int| 0 <= k < c.urls.len() && #[trigger] alias_at(c.urls, k, old);
        lemma_last_alias(c.urls, old, k0);
        let i = last_alias_index(c.urls, old);
        let e = c.urls[i].1;
        let al = e.aliases();
        let keep = other_than(old);
        let f = al.filter(keep);
        lemma_update_entry(c.urls, i, e.without_alias(old).with_alias(new));
        assert(distinct_keys(after.urls));
        assert forall|j: int| 0 <= j < c.urls.len() && j != i implies #[trigger] after.urls[j]
            == c.urls[j] by {}
        // `new` was no alias anywhere, so it is not among the kept aliases
        assert(!al.contains(new)) by {
            if al.contains(new) {
                assert(alias_at(c.urls, i, new));
            }
        }
        assert(!f.contains(new)) by {
            if f.contains(new) {
                al.lemma_filter_contains_rev(keep, new);
            }
        }
        // entry `i` is a full entry; its aliases become the kept ones and `new`
        let e2 = UrlEntryView::Full { url: e.url(), aliases: f.push(new) };
        assert(after.urls[i].1 == e2) by {
            match e {
                UrlEntryView::Simple(_) => {
                    assert(al.len() == 0);
                },
                UrlEntryView::Full { url, aliases } => {},
            }
        }
        assert forall|a: Seq<char>| #[trigger] e2.has_alias(a) <==> (a == new || (al.contains(a) && a != old)) by {
            if f.push(new).contains(a) {
                let m = choose|m: int| 0 <= m < f.push(new).len() && f.push(new)[m] == a;
                if m < f.len() {
                    assert(f.contains(a));
                    al.lemma_filter_contains_rev(keep, a);
                    broadcast use vstd::seq_lib::group_filter_ensures;
                    assert(keep(f[m]));
                }
            }
            if a == new {
                assert(f.push(new)[f.len() as int] == a);
            } else if al.contains(a) && a != old {
                let m = choose|m: int| 0 <= m < al.len() && al[m] == a;
                broadcast use vstd::seq_lib::group_filter_ensures;
                assert(keep(al[m]));
                assert(f.contains(a));
                let q = choose|q: int| 0 <= q < f.len() && f[q] == a;
                assert(f.push(new)[q] == a);
            }
        }
        // aliases stay unique
        assert(aliases_unique_by_entry(after.urls)) by {
            assert(al.no_duplicates());
            lemma_filter_no_duplicates(al, keep);
            assert(f.push(new).no_duplicates()) by {
                let g = f.push(new);
                assert forall|x: int, y: int| 0 <= x < g.len() && 0 <= y < g.len() && x != y implies g[x]
                    != g[y] by {
                    if x < f.len() && y < f.len() {
                    } else if x < f.len() {
                        assert(f.contains(f[x]));
                    } else {
                        assert(f.contains(f[y]));
                    }
                }
            }
            assert forall|j: int| 0 <= j < after.urls.len() implies (#[trigger] after.urls[j]).1.aliases().no_duplicates() by {
                if j != i {
                    assert(after.urls[j] == c.urls[j]);
                }
            }
            assert forall|j1: int, j2: int, a: Seq<char>|
                0 <= j1 < after.urls.len() && 0 <= j2 < after.urls.len() && j1 != j2
                    && #[trigger] after.urls[j1].1.has_alias(a) implies !#[trigger] after.urls[j2].1.has_alias(
                a,
            ) by {
                if after.urls[j2].1.has_alias(a) {
                    if j1 != i && j2 != i {
                        assert(c.urls[j1].1.has_alias(a));
                    } else {
                        let j = if j1 == i { j2 } else { j1 };
                        assert(after.urls[j] == c.urls[j]);
                        assert(c.urls[j].1.has_alias(a));
                        assert(e2.has_alias(a));
                        if a == new {
                            assert(alias_at(c.urls, j, new));
                        } else {
                            assert(c.urls[i].1.has_alias(a));
                        }
                    }
                }
            }
        }
        // no alias is a url name
        assert(no_alias_is_name_of(after.urls, after.urls)) by {
            assert forall|j: int, a: Seq<char>|
                0 <= j < after.urls.len() && #[trigger] after.urls[j].1.has_alias(a) implies !has_key(
                after.urls,
                a,
            ) by {
                if j != i {
                    assert(c.urls[j].1.has_alias(a));
                } else {
                    assert(e2.has_alias(a));
                    if a != new {
                        assert(c.urls[i].1.has_alias(a));
                    }
                }
            }
        }
        // every group member resolves
        law_resolution(after.urls, new);
        assert(alias_at(after.urls, i, new)) by {
            assert(e2.has_alias(new));
        }
        assert(group_members_resolve(after.groups, after.urls)) by {
            assert forall|k: int, x: Seq<char>|
                0 <= k < after.groups.len() && #[trigger] after.groups[k].1.contains(x) implies resolve_name(
                after.urls,
                x,
            ) is Some by {
                let l = c.groups[k].1;
                let l2 = rename_in_list(l, old, new);
                assert(after.groups[k].1 == l2);
                let m = choose|m: int| 0 <= m < l2.len() && l2[m] == x;
                law_resolution(after.urls, x);
                if l[m] == old {
                    assert(x == new);
                } else {
                    assert(x == l[m]);
                    assert(c.groups[k].1.contains(x));
                    law_resolution(c.urls, x);
                    if !has_key(c.urls, x) {
                        let j = choose|j: int| 0 <= j < c.urls.len() && #[trigger] alias_at(c.urls, j, x);
                        if j != i {
                            assert(alias_at(after.urls, j, x));
                        } else {
                            assert(e2.has_alias(x));
                            assert(alias_at(after.urls, i, x));
                        }
                    }
                }
            }
        }
    }
}

/// A name that a group lists after pruning was listed by some group before,
/// and is not one of the pruned names.
proof fn lemma_pruned_member(groups: GroupsView, doomed: Seq<Seq<char>>, k: int, x: Seq<char>)
    requires
        0 <= k < drop_empty_groups(prune_groups(groups, doomed)).len(),
        drop_empty_groups(prune_groups(groups, doomed))[k].1.contains(x),
    ensures
        !doomed.contains(x),
        exists|k0: int| 0 <= k0 < groups.len() && #[trigger] groups[k0].1.contains(x),
{
    let p = prune_groups(groups, doomed);
    let nonempty = |g: (Seq<char>, Seq<Seq<char>>)| g.1.len() > 0;
    let d = p.filter(nonempty);
    assert(d.contains(d[k]));
    p.lemma_filter_contains_rev(nonempty, d[k]);
    let h = choose|h: int| 0 <= h < p.len() && p[h] == d[k];
    let keep = |e: Seq<char>| !doomed.contains(e);
    let l = groups[h].1;
    assert(p[h].1 == l.filter(keep));
    l.lemma_filter_contains_rev(keep, x);
    let m = choose|m: int| 0 <= m < l.filter(keep).len() && l.filter(keep)[m] == x;
    broadcast use vstd::seq_lib::group_filter_ensures;

    assert(keep(l.filter(keep)[m]));
    assert(groups[h].1.contains(x));
}

/// Deleting a group of a configuration that has no warnings leaves it without
/// warnings.
pub proof fn law_delete_group_keeps_no_warnings(c: ConfigView, name: Seq<char>, after: ConfigView)
    requires
        distinct_keys(c.groups),
        config_warnings(c).len() == 0,
        delete_group_result(c, name) == Ok::<ConfigView, crate::error::ErrorView>(after),
    ensures
        config_warnings(after).len() == 0,
{
    law_no_warnings_by_entry(c);
    law_no_warnings_by_entry(after);
    let i = key_index(c.groups, name);
    assert forall|k: int, x: Seq<char>|
        0 <= k < after.groups.len() && #[trigger] after.groups[k].1.contains(x) implies resolve_name(
        after.urls,
        x,
    ) is Some by {
        let k2 = if k < i { k } else { k + 1 };
        assert(after.groups[k] == c.groups[k2]);
        assert(c.groups[k2].1.contains(x));
    }
}

/// Renaming a group of a configuration that has no warnings leaves it without
/// warnings.
pub proof fn law_rename_group_keeps_no_warnings(
    c: ConfigView,
    old: Seq<char>,
    new: Seq<char>,
    after: ConfigView,
)
    requires
        distinct_keys(c.groups),
        config_warnings(c).len() == 0,
        rename_group_result(c, old, new) == Ok::<ConfigView, crate::error::ErrorView>(after),
    ensures
        config_warnings(after).len() == 0,
{
    law_no_warnings_by_entry(c);
    law_no_warnings_by_entry(after);
    let i = key_index(c.groups, old);
    lemma_key_index(c.groups, i);
    let n = c.groups.len();
    assert forall|k: int, x: Seq<char>|
        0 <= k < after.groups.len() && #[trigger] after.groups[k].1.contains(x) implies resolve_name(
        after.urls,
        x,
    ) is Some by {
        let k2 = if k == n - 1 { i } else if k < i { k } else { k + 1 };
        assert(after.groups[k].1 == c.groups[k2].1);
        assert(c.groups[k2].1.contains(x));
    }
}

/// Deleting an alias of a configuration that has no warnings leaves it without
/// warnings.
pub proof fn law_delete_alias_keeps_no_warnings(c: ConfigView, alias: Seq<char>, after: ConfigView)
    requires
        distinct_keys(c.urls),
        config_warnings(c).len() == 0,
        delete_alias_result(c, alias) == Ok::<ConfigView, crate::error::ErrorView>(after),
    ensures
        config_warnings(after).len() == 0,
{
    law_no_warnings_by_entry(c);
    law_no_warnings_by_entry(after);
    let k0 = choose|k: int| 0 <= k < c.urls.len() && #[trigger] alias_at(c.urls, k, alias);
    lemma_last_alias(c.urls, alias, k0);
    let i = last_alias_index(c.urls, alias);
    let e = c.urls[i].1;
    let al = e.aliases();
    let keep = other_than(alias);
    let f = al.filter(keep);
    lemma_update_entry(c.urls, i, e.without_alias(alias));
    assert forall|j: int| 0 <= j < c.urls.len() && j != i implies #[trigger] after.urls[j]
        == c.urls[j] by {}
    let e2 = UrlEntryView::Full { url: e.url(), aliases: f };
    assert(after.urls[i].1 == e2) by {
        match e {
            UrlEntryView::Simple(_) => {
                assert(al.len() == 0);
            },
            UrlEntryView::Full { url, aliases } => {},
        }
    }
    assert forall|a: Seq<char>| #[trigger] e2.has_alias(a) <==> (al.contains(a) && a != alias) by {
        broadcast use vstd::seq_lib::group_filter_ensures;

        if f.contains(a) {
            al.lemma_filter_contains_rev(keep, a);
            let m = choose|m: int| 0 <= m < f.len() && f[m] == a;
            assert(keep(f[m]));
        }
        if al.contains(a) && a != alias {
            let m = choose|m: int| 0 <= m < al.len() && al[m] == a;
            assert(keep(al[m]));
        }
    }
    assert(aliases_unique_by_entry(after.urls)) by {
        lemma_filter_no_duplicates(al, keep);
        assert forall|j: int| 0 <= j < after.urls.len() implies (#[trigger] after.urls[j]).1.aliases().no_duplicates() by {
            if j != i {
                assert(after.urls[j] == c.urls[j]);
            }
        }
        assert forall|j1: int, j2: int, a: Seq<char>|
            0 <= j1 < after.urls.len() && 0 <= j2 < after.urls.len() && j1 != j2
                && #[trigger] after.urls[j1].1.has_alias(a) implies !#[trigger] after.urls[j2].1.has_alias(
            a,
        ) by {
            if after.urls[j2].1.has_alias(a) {
                if j1 != i && j2 != i {
                    assert(c.urls[j1].1.has_alias(a));
                } else {
                    let j = if j1 == i { j2 } else { j1 };
                    assert(c.urls[j].1.has_alias(a));
                    assert(e2.has_alias(a));
                    assert(c.urls[i].1.has_alias(a));
                }
            }
        }
    }
    assert(no_alias_is_name_of(after.urls, after.urls)) by {
        assert forall|j: int, a: Seq<char>|
            0 <= j < after.urls.len() && #[trigger] after.urls[j].1.has_alias(a) implies !has_key(
            after.urls,
            a,
        ) by {
            if j != i {
                assert(c.urls[j].1.has_alias(a));
            } else {
                assert(e2.has_alias(a));
                assert(c.urls[i].1.has_alias(a));
            }
        }
    }
    assert(group_members_resolve(after.groups, after.urls)) by {
        assert forall|k: int, x: Seq<char>|
            0 <= k < after.groups.len() && #[trigger] after.groups[k].1.contains(x) implies resolve_name(
            after.urls,
            x,
        ) is Some by {
            lemma_pruned_member(c.groups, seq![alias], k, x);
            let k0 = choose|k0: int| 0 <= k0 < c.groups.len() && #[trigger] c.groups[k0].1.contains(x);
            assert(x != alias) by {
                if x == alias {
                    assert(seq![alias][0] == alias);
                }
            }
            law_resolution(c.urls, x);
            law_resolution(after.urls, x);
            if !has_key(c.urls, x) {
                let j = choose|j: int| 0 <= j < c.urls.len() && #[trigger] alias_at(c.urls, j, x);
                if j != i {
                    assert(alias_at(after.urls, j, x));
                } else {
                    assert(e2.has_alias(x));
                    assert(alias_at(after.urls, i, x));
                }
            }
        }
    }
}

/// Renaming a url of a configuration that has no warnings leaves it without
/// warnings.
pub proof fn law_rename_url_keeps_no_warnings(
    c: ConfigView,
    old: Seq<char>,
    new: Seq<char>,
    after: ConfigView,
)
    requires
        distinct_keys(c.urls),
        config_warnings(c).len() == 0,
        rename_url_result(c, old, new) == Ok::<ConfigView, crate::error::ErrorView>(after),
    ensures
        config_warnings(after).len() == 0,
{
    if old != new {
        law_no_warnings_by_entry(c);
        law_no_warnings_by_entry(after);
        let i = key_index(c.urls, old);
        lemma_key_index(c.urls, i);
        lemma_remove_entry(c.urls, i);
        let r = c.urls.remove(i);
        lemma_push_entry(r, new, value_of(c.urls, old));
        let n = c.urls.len();
        assert(after.urls.len() == n);
        // the entry at each position of `after`, taken from `c`
        assert forall|j: int| 0 <= j < n implies #[trigger] after.urls[j].1 == c.urls[if j == n
            - 1 {
            i
        } else if j < i {
            j
        } else {
            j + 1
        }].1 by {}
        assert(aliases_unique_by_entry(after.urls)) by {
            assert forall|j: int| 0 <= j < n implies (#[trigger] after.urls[j]).1.aliases().no_duplicates() by {
                let f = if j == n - 1 { i } else if j < i { j } else { j + 1 };
                assert(after.urls[j].1 == c.urls[f].1);
            }
            assert forall|j1: int, j2: int, a: Seq<char>|
                0 <= j1 < n && 0 <= j2 < n && j1 != j2 && #[trigger] after.urls[j1].1.has_alias(
                    a,
                ) implies !#[trigger] after.urls[j2].1.has_alias(a) by {
                let f1 = if j1 == n - 1 { i } else if j1 < i { j1 } else { j1 + 1 };
                let f2 = if j2 == n - 1 { i } else if j2 < i { j2 } else { j2 + 1 };
                assert(after.urls[j1].1 == c.urls[f1].1);
                assert(after.urls[j2].1 == c.urls[f2].1);
                assert(c.urls[f1].1.has_alias(a));
            }
        }
        assert(no_alias_is_name_of(after.urls, after.urls)) by {
            assert forall|j: int, a: Seq<char>|
                0 <= j < n && #[trigger] after.urls[j].1.has_alias(a) implies !has_key(
                after.urls,
                a,
            ) by {
                let f = if j == n - 1 { i } else if j < i { j } else { j + 1 };
                assert(after.urls[j].1 == c.urls[f].1);
                assert(c.urls[f].1.has_alias(a));
                if a == new {
                    assert(alias_at(c.urls, f, new));
                }
            }
        }
        assert(group_members_resolve(after.groups, after.urls)) by {
            assert forall|k: int, x: Seq<char>|
                0 <= k < after.groups.len() && #[trigger] after.groups[k].1.contains(
                    x,
                ) implies resolve_name(after.urls, x) is Some by {
                let l = c.groups[k].1;
                let l2 = rename_in_list(l, old, new);
                assert(after.groups[k].1 == l2);
                let m = choose|m: int| 0 <= m < l2.len() && l2[m] == x;
                law_resolution(after.urls, x);
                if l[m] != old {
                    assert(x == l[m]);
                    assert(c.groups[k].1.contains(x));
                    law_resolution(c.urls, x);
                    if !has_key(c.urls, x) {
                        let j = choose|j: int| 0 <= j < n && #[trigger] alias_at(c.urls, j, x);
                        let j2 = if j == i { n - 1 } else if j < i { j } else { j - 1 };
                        assert(after.urls[j2].1 == c.urls[j].1);
                        assert(alias_at(after.urls, j2, x));
                    }
                }
            }
        }
    }
}

/// Deleting a url of a configuration that has no warnings leaves it without
/// warnings.
pub proof fn law_delete_url_keeps_no_warnings(c: ConfigView, name: Seq<char>, after: ConfigView)
    requires
        distinct_keys(c.urls),
        config_warnings(c).len() == 0,
        delete_url_result(c, name) == Ok::<ConfigView, crate::error::ErrorView>(after),
    ensures
        config_warnings(after).len() == 0,
{
    law_no_warnings_by_entry(c);
    law_no_warnings_by_entry(after);
    let i = key_index(c.urls, name);
    lemma_key_index(c.urls, i);
    lemma_remove_entry(c.urls, i);
    let n = c.urls.len();
    let doomed = seq![name] + value_of(c.urls, name).aliases();
    assert forall|j: int| 0 <= j < n - 1 implies #[trigger] after.urls[j] == c.urls[if j < i {
        j
    } else {
        j + 1
    }] by {}
    assert(aliases_unique_by_entry(after.urls)) by {
        assert forall|j: int| 0 <= j < n - 1 implies (#[trigger] after.urls[j]).1.aliases().no_duplicates() by {
            let f = if j < i { j } else { j + 1 };
            assert(after.urls[j] == c.urls[f]);
        }
        assert forall|j1: int, j2: int, a: Seq<char>|
            0 <= j1 < n - 1 && 0 <= j2 < n - 1 && j1 != j2 && #[trigger] after.urls[j1].1.has_alias(
                a,
            ) implies !#[trigger] after.urls[j2].1.has_alias(a) by {
            let f1 = if j1 < i { j1 } else { j1 + 1 };
            let f2 = if j2 < i { j2 } else { j2 + 1 };
            assert(after.urls[j1] == c.urls[f1]);
            assert(after.urls[j2] == c.urls[f2]);
            assert(c.urls[f1].1.has_alias(a));
        }
    }
    assert(no_alias_is_name_of(after.urls, after.urls)) by {
        assert forall|j: int, a: Seq<char>|
            0 <= j < n - 1 && #[trigger] after.urls[j].1.has_alias(a) implies !has_key(
            after.urls,
            a,
        ) by {
            let f = if j < i { j } else { j + 1 };
            assert(after.urls[j] == c.urls[f]);
            assert(c.urls[f].1.has_alias(a));
        }
    }
    assert(group_members_resolve(after.groups, after.urls)) by {
        assert forall|k: int, x: Seq<char>|
            0 <= k < after.groups.len() && #[trigger] after.groups[k].1.contains(x) implies resolve_name(
            after.urls,
            x,
        ) is Some by {
            lemma_pruned_member(c.groups, doomed, k, x);
            let k0 = choose|k0: int| 0 <= k0 < c.groups.len() && #[trigger] c.groups[k0].1.contains(x);
            assert(x != name) by {
                if x == name {
                    assert(doomed[0] == name);
                }
            }
            law_resolution(c.urls, x);
            law_resolution(after.urls, x);
            if !has_key(c.urls, x) {
                let j = choose|j: int| 0 <= j < n && #[trigger] alias_at(c.urls, j, x);
                if j == i {
                    let al = value_of(c.urls, name).aliases();
                    let m = choose|m: int| 0 <= m < al.len() && al[m] == x;
                    assert(doomed[m + 1] == x);
                } else {
                    let j2 = if j < i { j } else { j - 1 };
                    assert(after.urls[j2] == c.urls[j]);
                    assert(alias_at(after.urls, j2, x));
                }
            }
        }
    }
}

} // verus!
