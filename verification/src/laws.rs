//! Properties of the library that relate its operations.
use vstd::prelude::*;

use crate::config::{
    alias_at, delete_alias_result, delete_group_result, delete_url_result, drop_empty_groups,
    first_alias_at, first_alias_index, is_alias, last_alias_index, lemma_first_alias,
    lemma_last_alias, prune_groups, rename_alias_result, rename_group_result, rename_in_groups,
    rename_in_list, rename_url_result, resolve_name, ConfigView, GroupsView, UrlsView,
};
use crate::entry::UrlEntryView;
use crate::listing::{insertion_point, is_insertion_point, keys_of, name_lt, name_order};
use crate::open::{expand_one, expansion, first_occurrences, names_to_open};
use crate::validate::{
    alias_occurrences, alias_warnings, config_warnings, first_owners, group_occurrences,
    group_warnings, occurrence_warnings,
};
use crate::name_map::{
    as_map, distinct_keys, has_key, inserted, key_index, lemma_key_index, lemma_push_entry,
    lemma_remove_entry, lemma_update_entry, removed, value_of,
};

verus! {

/// Storing a value under a name and then looking the name up gives that
/// value; every other name keeps its value, and no name occurs twice.
pub proof fn law_insert_then_lookup<W>(s: Seq<(Seq<char>, W)>, k: Seq<char>, v: W)
    requires
        distinct_keys(s),
    ensures
        distinct_keys(inserted(s, k, v)),
        has_key(inserted(s, k, v), k),
        value_of(inserted(s, k, v), k) == v,
        forall|k2: Seq<char>|
            k2 != k ==> (has_key(inserted(s, k, v), k2) <==> has_key(s, k2)),
        forall|k2: Seq<char>|
            k2 != k && has_key(s, k2) ==> value_of(inserted(s, k, v), k2) == value_of(s, k2),
        as_map(inserted(s, k, v)) == as_map(s).insert(k, v),
{
    if has_key(s, k) {
        let i = key_index(s, k);
        lemma_key_index(s, i);
        lemma_update_entry(s, i, v);
    } else {
        lemma_push_entry(s, k, v);
    }
    let m = as_map(inserted(s, k, v));
    assert(m.contains_key(k));
    assert forall|k2: Seq<char>| k2 != k && has_key(s, k2) implies value_of(
        inserted(s, k, v),
        k2,
    ) == value_of(s, k2) by {
        assert(m.contains_key(k2));
        assert(m[k2] == as_map(s)[k2]);
    }
}

/// After removing a name it is gone; every other name keeps its value, and no
/// name occurs twice.
pub proof fn law_remove_then_lookup<W>(s: Seq<(Seq<char>, W)>, k: Seq<char>)
    requires
        distinct_keys(s),
    ensures
        distinct_keys(removed(s, k)),
        !has_key(removed(s, k), k),
        forall|k2: Seq<char>| k2 != k ==> (has_key(removed(s, k), k2) <==> has_key(s, k2)),
        forall|k2: Seq<char>|
            k2 != k && has_key(s, k2) ==> value_of(removed(s, k), k2) == value_of(s, k2),
        as_map(removed(s, k)) == as_map(s).remove(k),
{
    if has_key(s, k) {
        let i = key_index(s, k);
        lemma_key_index(s, i);
        lemma_remove_entry(s, i);
    } else {
        assert(as_map(s) =~= as_map(s).remove(k));
    }
}

/// After adding an alias the entry has it; adding it again changes nothing;
/// the url stays.
pub proof fn law_add_alias(e: UrlEntryView, a: Seq<char>)
    ensures
        e.with_alias(a).has_alias(a),
        e.with_alias(a).with_alias(a) == e.with_alias(a),
        e.with_alias(a).url() == e.url(),
        forall|b: Seq<char>| e.has_alias(b) ==> e.with_alias(a).has_alias(b),
{
    match e {
        UrlEntryView::Simple(u) => {
            assert(seq![a][0] == a);
        },
        UrlEntryView::Full { url, aliases } => {
            if !aliases.contains(a) {
                assert(aliases.push(a)[aliases.len() as int] == a);
                assert forall|b: Seq<char>| aliases.contains(b) implies aliases.push(a).contains(b) by {
                    let i = choose|i: int| 0 <= i < aliases.len() && aliases[i] == b;
                    assert(aliases.push(a)[i] == b);
                }
            }
        },
    }
}

/// After removing an alias the entry no longer has it, keeps every other
/// alias and keeps its url.
pub proof fn law_remove_alias(e: UrlEntryView, a: Seq<char>)
    ensures
        !e.without_alias(a).has_alias(a),
        e.without_alias(a).url() == e.url(),
        forall|b: Seq<char>| b != a ==> (e.without_alias(a).has_alias(b) <==> e.has_alias(b)),
{
    broadcast use vstd::seq_lib::group_filter_ensures;

    match e {
        UrlEntryView::Simple(_) => {},
        UrlEntryView::Full { url, aliases } => {
            let keep = crate::entry::other_than(a);
            let f = aliases.filter(keep);
            if f.contains(a) {
                let i = choose|i: int| 0 <= i < f.len() && f[i] == a;
                assert(keep(f[i]));
            }
        },
    }
    assert forall|b: Seq<char>| b != a implies (e.without_alias(a).has_alias(b) <==> e.has_alias(
        b,
    )) by {
        match e {
            UrlEntryView::Simple(_) => {},
            UrlEntryView::Full { url, aliases } => {
                let keep = crate::entry::other_than(a);
                let f = aliases.filter(keep);
                assert(e.without_alias(a).aliases() == f);
                if aliases.contains(b) {
                    let i = choose|i: int| 0 <= i < aliases.len() && aliases[i] == b;
                    assert(keep(aliases[i]));
                }
                if f.contains(b) {
                    aliases.lemma_filter_contains_rev(keep, b);
                }
            },
        }
    }
}

/// Replacing the url keeps the aliases.
pub proof fn law_set_url(e: UrlEntryView, u: Seq<char>)
    ensures
        e.with_url(u).url() == u,
        e.with_url(u).aliases() == e.aliases(),
{
}

/// A name resolves exactly when it is a url name or an alias; a url name
/// resolves to its own url even when it is also someone's alias; and what a
/// name resolves to is the url of an entry that has that name or that alias.
pub proof fn law_resolution(urls: UrlsView, name: Seq<char>)
    requires
        distinct_keys(urls),
    ensures
        resolve_name(urls, name) is Some <==> (has_key(urls, name) || is_alias(urls, name)),
        has_key(urls, name) ==> resolve_name(urls, name) == Some(value_of(urls, name).url()),
        resolve_name(urls, name) is Some ==> exists|i: int|
            0 <= i < urls.len() && (urls[i].0 == name || urls[i].1.has_alias(name))
                && resolve_name(urls, name) == Some(urls[i].1.url()),
{
    if has_key(urls, name) {
        let i = key_index(urls, name);
        lemma_key_index(urls, i);
        assert(urls[i].0 == name);
    } else if is_alias(urls, name) {
        let k = choose|k: int| 0 <= k < urls.len() && #[trigger] alias_at(urls, k, name);
        lemma_first_alias(urls, name, k);
        let i = first_alias_index(urls, name);
        assert(urls[i].1.has_alias(name));
    }
}

/// No group lists `name`.
pub open spec fn unreferenced(groups: GroupsView, name: Seq<char>) -> bool {
    forall|g: int| 0 <= g < groups.len() ==> !(#[trigger] groups[g]).1.contains(name)
}

/// Every group lists at least one name.
pub open spec fn no_empty_group(groups: GroupsView) -> bool {
    forall|g: int| 0 <= g < groups.len() ==> (#[trigger] groups[g]).1.len() > 0
}

proof fn lemma_renamed_groups(groups: GroupsView, old: Seq<char>, new: Seq<char>)
    requires
        old != new,
    ensures
        unreferenced(rename_in_groups(groups, old, new), old),
        forall|k: Seq<char>|
            has_key(rename_in_groups(groups, old, new), k) <==> has_key(groups, k),
{
    let r = rename_in_groups(groups, old, new);
    assert forall|g: int| 0 <= g < r.len() implies !(#[trigger] r[g]).1.contains(old) by {
        let l = rename_in_list(groups[g].1, old, new);
        if l.contains(old) {
            let i = choose|i: int| 0 <= i < l.len() && l[i] == old;
            assert(l[i] == (if groups[g].1[i] == old { new } else { groups[g].1[i] }));
        }
    }
    assert forall|k: Seq<char>| has_key(r, k) <==> has_key(groups, k) by {
        if has_key(r, k) {
            let i = choose|i: int| #![trigger r[i]] 0 <= i < r.len() && r[i].0 == k;
            assert(groups[i].0 == k);
        }
        if has_key(groups, k) {
            let i = choose|i: int| #![trigger groups[i]] 0 <= i < groups.len() && groups[i].0 == k;
            assert(r[i].0 == k);
        }
    }
}

/// Renaming a url moves its entry to the new name, leaves the other urls as
/// they were, and makes every group that referred to the old name refer to
/// the new one; the new name resolves to what the old name did.
pub proof fn law_rename_url(c: ConfigView, old: Seq<char>, new: Seq<char>, after: ConfigView)
    requires
        distinct_keys(c.urls),
        old != new,
        rename_url_result(c, old, new) == Ok::<ConfigView, crate::error::ErrorView>(after),
    ensures
        distinct_keys(after.urls),
        as_map(after.urls) == as_map(c.urls).remove(old).insert(new, value_of(c.urls, old)),
        !has_key(after.urls, old),
        resolve_name(after.urls, new) == resolve_name(c.urls, old),
        unreferenced(after.groups, old),
        after.groups == rename_in_groups(c.groups, old, new),
{
    let i = key_index(c.urls, old);
    lemma_key_index(c.urls, i);
    lemma_remove_entry(c.urls, i);
    let removed = c.urls.remove(i);
    lemma_push_entry(removed, new, value_of(c.urls, old));
    lemma_key_index(after.urls, removed.len() as int);
    lemma_renamed_groups(c.groups, old, new);
}

/// Renaming a url there and back gives the same urls and groups, when the old
/// name is no alias and no group listed the new name.
pub proof fn law_rename_url_round_trip(
    c: ConfigView,
    old: Seq<char>,
    new: Seq<char>,
    after: ConfigView,
)
    requires
        distinct_keys(c.urls),
        old != new,
        !is_alias(c.urls, old),
        unreferenced(c.groups, new),
        rename_url_result(c, old, new) == Ok::<ConfigView, crate::error::ErrorView>(after),
    ensures
        rename_url_result(after, new, old) is Ok,
        as_map(rename_url_result(after, new, old)->Ok_0.urls) == as_map(c.urls),
        rename_url_result(after, new, old)->Ok_0.groups == c.groups,
{
    law_rename_url(c, old, new, after);
    let i = key_index(c.urls, old);
    let removed = c.urls.remove(i);
    let j = removed.len() as int;
    // the aliases of `after` are those of `c`
    assert forall|k: int| 0 <= k < after.urls.len() implies !alias_at(after.urls, k, old) by {
        if k < j {
            let k2 = if k < i { k } else { k + 1 };
            assert(after.urls[k] == c.urls[k2]);
            assert(!alias_at(c.urls, k2, old));
        } else {
            assert(after.urls[k].1 == c.urls[i].1);
            assert(!alias_at(c.urls, i, old));
        }
    }
    assert(!is_alias(after.urls, old));
    assert(after.urls[j].0 == new);
    assert(has_key(after.urls, new));
    let back = rename_url_result(after, new, old)->Ok_0;
    law_rename_url(after, new, old, back);
    lemma_key_index(after.urls, j);
    assert(value_of(after.urls, new) == value_of(c.urls, old));
    assert(as_map(back.urls) =~= as_map(c.urls));
    let once = rename_in_groups(c.groups, old, new);
    assert forall|g: int| 0 <= g < c.groups.len() implies #[trigger] back.groups[g] == c.groups[g] by {
        let l = c.groups[g].1;
        let l2 = rename_in_list(rename_in_list(l, old, new), new, old);
        assert forall|m: int| 0 <= m < l.len() implies l2[m] == l[m] by {
            assert(l[m] != new);
        }
        assert(l2 =~= l);
    }
    assert(back.groups =~= c.groups);
}

/// Renaming an alias moves it, on the last entry that had it, to the new name;
/// afterwards the new name resolves to that entry's url, and no group refers
/// to the old alias.
pub proof fn law_rename_alias(c: ConfigView, old: Seq<char>, new: Seq<char>, after: ConfigView)
    requires
        distinct_keys(c.urls),
        old != new,
        rename_alias_result(c, old, new) == Ok::<ConfigView, crate::error::ErrorView>(after),
    ensures
        distinct_keys(after.urls),
        is_alias(after.urls, new),
        resolve_name(after.urls, new) == Some(c.urls[last_alias_index(c.urls, old)].1.url()),
        !after.urls[last_alias_index(c.urls, old)].1.has_alias(old),
        forall|k: Seq<char>| has_key(after.urls, k) <==> has_key(c.urls, k),
        unreferenced(after.groups, old),
{
    let k0 = choose|k: int| 0 <= k < c.urls.len() && #[trigger] alias_at(c.urls, k, old);
    lemma_last_alias(c.urls, old, k0);
    let i = last_alias_index(c.urls, old);
    let e = c.urls[i].1;
    lemma_update_entry(c.urls, i, e.without_alias(old).with_alias(new));
    law_add_alias(e.without_alias(old), new);
    law_remove_alias(e, old);
    law_remove_alias(e.without_alias(old).with_alias(new).without_alias(new), old);
    // the only entry with the alias `new` is `i`
    assert(alias_at(after.urls, i, new));
    assert forall|j: int| 0 <= j < after.urls.len() && j != i implies !#[trigger] alias_at(
        after.urls,
        j,
        new,
    ) by {
        assert(after.urls[j] == c.urls[j]);
        if alias_at(c.urls, j, new) {
            assert(is_alias(c.urls, new));
        }
    }
    assert(first_alias_at(after.urls, new, i));
    lemma_first_alias(after.urls, new, i);
    assert(!has_key(after.urls, new));
    // the alias `old` is gone from entry `i`
    let e2 = e.without_alias(old).with_alias(new);
    assert(!e.without_alias(old).has_alias(old));
    if e2.has_alias(old) {
        match e.without_alias(old) {
            UrlEntryView::Simple(u) => {
                assert(e2.aliases() == seq![new]);
                assert(e2.aliases()[0] == new);
            },
            UrlEntryView::Full { url, aliases } => {
                if !aliases.contains(new) {
                    let m = choose|m: int| 0 <= m < aliases.push(new).len() && aliases.push(new)[m] == old;
                    assert(aliases.contains(aliases.push(new)[m]));
                }
            },
        }
    }
    lemma_renamed_groups(c.groups, old, new);
}

proof fn lemma_pruned_groups(groups: GroupsView, doomed: Seq<Seq<char>>)
    ensures
        forall|n: Seq<char>|
            #[trigger] doomed.contains(n) ==> unreferenced(
                drop_empty_groups(prune_groups(groups, doomed)),
                n,
            ),
        no_empty_group(drop_empty_groups(prune_groups(groups, doomed))),
{
    broadcast use vstd::seq_lib::group_filter_ensures;

    let p = prune_groups(groups, doomed);
    let nonempty = |g: (Seq<char>, Seq<Seq<char>>)| g.1.len() > 0;
    let d = p.filter(nonempty);
    assert forall|n: Seq<char>| doomed.contains(n) implies unreferenced(d, n) by {
        assert forall|g: int| 0 <= g < d.len() implies !(#[trigger] d[g]).1.contains(n) by {
            assert(d.contains(d[g]));
            p.lemma_filter_contains_rev(nonempty, d[g]);
            let h = choose|h: int| 0 <= h < p.len() && p[h] == d[g];
            let keep = |e: Seq<char>| !doomed.contains(e);
            let l = groups[h].1.filter(keep);
            assert(p[h].1 == l);
            if l.contains(n) {
                let m = choose|m: int| 0 <= m < l.len() && l[m] == n;
                assert(keep(l[m]));
            }
        }
    }
    assert forall|g: int| 0 <= g < d.len() implies (#[trigger] d[g]).1.len() > 0 by {
        assert(nonempty(d[g]));
    }
}

/// Deleting a url removes its entry and leaves the other urls as they were;
/// afterwards no group refers to its name or to one of its aliases, and no
/// group is empty.
pub proof fn law_delete_url(c: ConfigView, name: Seq<char>, after: ConfigView)
    requires
        distinct_keys(c.urls),
        delete_url_result(c, name) == Ok::<ConfigView, crate::error::ErrorView>(after),
    ensures
        distinct_keys(after.urls),
        as_map(after.urls) == as_map(c.urls).remove(name),
        !has_key(after.urls, name),
        unreferenced(after.groups, name),
        forall|a: Seq<char>| value_of(c.urls, name).has_alias(a) ==> unreferenced(after.groups, a),
        no_empty_group(after.groups),
{
    let i = key_index(c.urls, name);
    lemma_key_index(c.urls, i);
    lemma_remove_entry(c.urls, i);
    let doomed = seq![name] + value_of(c.urls, name).aliases();
    lemma_pruned_groups(c.groups, doomed);
    assert(doomed[0] == name);
    assert(doomed.contains(name));
    assert forall|a: Seq<char>| value_of(c.urls, name).has_alias(a) implies unreferenced(
        after.groups,
        a,
    ) by {
        let al = value_of(c.urls, name).aliases();
        let m = choose|m: int| 0 <= m < al.len() && al[m] == a;
        assert(doomed[m + 1] == a);
        assert(doomed.contains(a));
    }
}

/// Deleting an alias takes it off the last entry that had it, leaves the url
/// names as they were, and afterwards no group refers to it and no group is empty.
pub proof fn law_delete_alias(c: ConfigView, alias: Seq<char>, after: ConfigView)
    requires
        distinct_keys(c.urls),
        delete_alias_result(c, alias) == Ok::<ConfigView, crate::error::ErrorView>(after),
    ensures
        distinct_keys(after.urls),
        !after.urls[last_alias_index(c.urls, alias)].1.has_alias(alias),
        forall|k: Seq<char>| has_key(after.urls, k) <==> has_key(c.urls, k),
        unreferenced(after.groups, alias),
        no_empty_group(after.groups),
{
    let k0 = choose|k: int| 0 <= k < c.urls.len() && #[trigger] alias_at(c.urls, k, alias);
    lemma_last_alias(c.urls, alias, k0);
    let i = last_alias_index(c.urls, alias);
    lemma_update_entry(c.urls, i, c.urls[i].1.without_alias(alias));
    law_remove_alias(c.urls[i].1, alias);
    lemma_pruned_groups(c.groups, seq![alias]);
    assert(seq![alias][0] == alias);
    assert(seq![alias].contains(alias));
}

/// Renaming a group moves its list to the new name and leaves the other groups
/// as they were; renaming it back restores the groups.
pub proof fn law_rename_group(c: ConfigView, old: Seq<char>, new: Seq<char>, after: ConfigView)
    requires
        distinct_keys(c.groups),
        rename_group_result(c, old, new) == Ok::<ConfigView, crate::error::ErrorView>(after),
    ensures
        distinct_keys(after.groups),
        as_map(after.groups) == as_map(c.groups).remove(old).insert(new, value_of(c.groups, old)),
        after.urls == c.urls,
        rename_group_result(after, new, old) is Ok,
        as_map(rename_group_result(after, new, old)->Ok_0.groups) == as_map(c.groups),
{
    let i = key_index(c.groups, old);
    lemma_key_index(c.groups, i);
    lemma_remove_entry(c.groups, i);
    let removed = c.groups.remove(i);
    lemma_push_entry(removed, new, value_of(c.groups, old));
    let j = removed.len() as int;
    lemma_key_index(after.groups, j);
    assert(has_key(after.groups, new));
    if old != new {
        assert(!has_key(after.groups, old));
    }
    let back = rename_group_result(after, new, old)->Ok_0;
    let removed2 = after.groups.remove(j);
    lemma_remove_entry(after.groups, j);
    lemma_push_entry(removed2, old, value_of(after.groups, new));
    assert(as_map(back.groups) =~= as_map(c.groups));
}

/// Deleting a group removes exactly that group.
pub proof fn law_delete_group(c: ConfigView, name: Seq<char>, after: ConfigView)
    requires
        distinct_keys(c.groups),
        delete_group_result(c, name) == Ok::<ConfigView, crate::error::ErrorView>(after),
    ensures
        distinct_keys(after.groups),
        as_map(after.groups) == as_map(c.groups).remove(name),
        !has_key(after.groups, name),
        after.urls == c.urls,
{
    let i = key_index(c.groups, name);
    lemma_key_index(c.groups, i);
    lemma_remove_entry(c.groups, i);
}

/// No alias occurs twice among the occurrences.
pub open spec fn aliases_unique(occ: Seq<(Seq<char>, Seq<char>)>) -> bool {
    forall|p: int, q: int|
        #![trigger occ[p], occ[q]]
        0 <= p < occ.len() && 0 <= q < occ.len() && p != q ==> occ[p].0 != occ[q].0
}

/// No alias among the occurrences is a url name.
pub open spec fn no_alias_is_url_name(occ: Seq<(Seq<char>, Seq<char>)>, urls: UrlsView) -> bool {
    forall|p: int| 0 <= p < occ.len() ==> !has_key(urls, (#[trigger] occ[p]).0)
}

/// Every group entry among the occurrences names a url or an alias.
pub open spec fn group_entries_resolve(occ: Seq<(Seq<char>, Seq<char>)>, urls: UrlsView) -> bool {
    forall|p: int| 0 <= p < occ.len() ==> resolve_name(urls, (#[trigger] occ[p]).1) is Some
}

proof fn lemma_first_owners(occ: Seq<(Seq<char>, Seq<char>)>, a: Seq<char>)
    ensures
        first_owners(occ).contains_key(a) <==> exists|p: int|
            0 <= p < occ.len() && (#[trigger] occ[p]).0 == a,
    decreases occ.len(),
{
    if occ.len() > 0 {
        let prev = occ.drop_last();
        lemma_first_owners(prev, a);
        if exists|p: int| 0 <= p < prev.len() && (#[trigger] prev[p]).0 == a {
            let p = choose|p: int| 0 <= p < prev.len() && (#[trigger] prev[p]).0 == a;
            assert(occ[p] == prev[p]);
        }
        if exists|p: int| 0 <= p < occ.len() && (#[trigger] occ[p]).0 == a {
            let p = choose|p: int| 0 <= p < occ.len() && (#[trigger] occ[p]).0 == a;
            if p < prev.len() {
                assert(occ[p] == prev[p]);
            }
        }
    }
}

proof fn lemma_alias_warnings_empty(occ: Seq<(Seq<char>, Seq<char>)>, urls: UrlsView)
    ensures
        alias_warnings(occ, urls).len() == 0 <==> (aliases_unique(occ) && no_alias_is_url_name(
            occ,
            urls,
        )),
    decreases occ.len(),
{
    if occ.len() > 0 {
        let prev = occ.drop_last();
        let (a, o) = occ.last();
        lemma_alias_warnings_empty(prev, urls);
        lemma_first_owners(prev, a);
        let step = occurrence_warnings(first_owners(prev), a, o, urls);
        assert(alias_warnings(occ, urls) == alias_warnings(prev, urls) + step);
        let last = occ.len() - 1;
        if aliases_unique(occ) && no_alias_is_url_name(occ, urls) {
            assert forall|p: int, q: int|
                #![trigger prev[p], prev[q]]
                0 <= p < prev.len() && 0 <= q < prev.len() && p != q implies prev[p].0 != prev[q].0 by {
                assert(occ[p] == prev[p] && occ[q] == prev[q]);
            }
            assert forall|p: int| 0 <= p < prev.len() implies !has_key(urls, (#[trigger] prev[p]).0) by {
                assert(occ[p] == prev[p]);
            }
            if first_owners(prev).contains_key(a) {
                let p = choose|p: int| 0 <= p < prev.len() && (#[trigger] prev[p]).0 == a;
                assert(occ[p] == prev[p]);
                assert(occ[last].0 == a);
            }
            assert(!has_key(urls, occ[last].0));
        }
        if alias_warnings(occ, urls).len() == 0 {
            assert(step.len() == 0);
            assert forall|p: int, q: int|
                #![trigger occ[p], occ[q]]
                0 <= p < occ.len() && 0 <= q < occ.len() && p != q implies occ[p].0 != occ[q].0 by {
                if p < last && q < last {
                    assert(occ[p] == prev[p] && occ[q] == prev[q]);
                } else if p < last {
                    assert(occ[p] == prev[p]);
                } else {
                    assert(occ[q] == prev[q]);
                }
            }
            assert forall|p: int| 0 <= p < occ.len() implies !has_key(urls, (#[trigger] occ[p]).0) by {
                if p < last {
                    assert(occ[p] == prev[p]);
                }
            }
        }
    }
}

proof fn lemma_group_warnings_empty(occ: Seq<(Seq<char>, Seq<char>)>, urls: UrlsView)
    ensures
        group_warnings(occ, urls).len() == 0 <==> group_entries_resolve(occ, urls),
    decreases occ.len(),
{
    if occ.len() > 0 {
        let prev = occ.drop_last();
        lemma_group_warnings_empty(prev, urls);
        let last = occ.len() - 1;
        if group_entries_resolve(occ, urls) {
            assert forall|p: int| 0 <= p < prev.len() implies resolve_name(
                urls,
                (#[trigger] prev[p]).1,
            ) is Some by {
                assert(occ[p] == prev[p]);
            }
            assert(resolve_name(urls, occ[last].1) is Some);
        }
        if group_warnings(occ, urls).len() == 0 {
            assert forall|p: int| 0 <= p < occ.len() implies resolve_name(
                urls,
                (#[trigger] occ[p]).1,
            ) is Some by {
                if p < last {
                    assert(occ[p] == prev[p]);
                }
            }
        }
    }
}

/// An alias occurrence is an alias of a url, paired with that url's name.
pub proof fn law_alias_occurrences(urls: UrlsView, a: Seq<char>, o: Seq<char>)
    ensures
        alias_occurrences(urls).contains((a, o)) <==> exists|i: int|
            0 <= i < urls.len() && (#[trigger] urls[i]).0 == o && urls[i].1.has_alias(a),
    decreases urls.len(),
{
    if urls.len() > 0 {
        let prev = urls.drop_last();
        let last = urls.last();
        let tail = last.1.aliases().map_values(|x: Seq<char>| (x, last.0));
        law_alias_occurrences(prev, a, o);
        let occ = alias_occurrences(urls);
        assert(occ == alias_occurrences(prev) + tail);
        if occ.contains((a, o)) {
            let p = choose|p: int| 0 <= p < occ.len() && occ[p] == (a, o);
            if p < alias_occurrences(prev).len() {
                assert(alias_occurrences(prev)[p] == (a, o));
                let i = choose|i: int| 0 <= i < prev.len() && (#[trigger] prev[i]).0 == o && prev[i].1.has_alias(a);
                assert(urls[i] == prev[i]);
            } else {
                let m = p - alias_occurrences(prev).len();
                assert(tail[m] == (a, o));
                assert(last.1.aliases()[m] == a);
                assert(urls[urls.len() - 1] == last);
            }
        }
        if exists|i: int| 0 <= i < urls.len() && (#[trigger] urls[i]).0 == o && urls[i].1.has_alias(a) {
            let i = choose|i: int| 0 <= i < urls.len() && (#[trigger] urls[i]).0 == o && urls[i].1.has_alias(a);
            if i < prev.len() {
                assert(prev[i] == urls[i]);
                let p = choose|p: int| 0 <= p < alias_occurrences(prev).len() && alias_occurrences(prev)[p] == (a, o);
                assert(occ[p] == (a, o));
            } else {
                assert(urls[i] == last);
                let m = choose|m: int| 0 <= m < last.1.aliases().len() && last.1.aliases()[m] == a;
                assert(occ[alias_occurrences(prev).len() + m] == tail[m]);
            }
        }
    }
}

/// A configuration has no warnings exactly when no alias is given twice, no
/// alias is a url name, and every group entry is a url name or an alias.
pub proof fn law_no_warnings(c: ConfigView)
    ensures
        config_warnings(c).len() == 0 <==> {
            &&& aliases_unique(alias_occurrences(c.urls))
            &&& no_alias_is_url_name(alias_occurrences(c.urls), c.urls)
            &&& group_entries_resolve(group_occurrences(c.groups), c.urls)
        },
{
    lemma_alias_warnings_empty(alias_occurrences(c.urls), c.urls);
    lemma_group_warnings_empty(group_occurrences(c.groups), c.urls);
}

proof fn lemma_first_occurrences<A>(s: Seq<A>)
    ensures
        first_occurrences(s).no_duplicates(),
        forall|x: A| first_occurrences(s).contains(x) <==> s.contains(x),
    decreases s.len(),
{
    if s.len() > 0 {
        let prev = s.drop_last();
        lemma_first_occurrences(prev);
        let d = first_occurrences(prev);
        assert forall|x: A| first_occurrences(s).contains(x) <==> s.contains(x) by {
            if prev.contains(x) {
                let i = choose|i: int| 0 <= i < prev.len() && prev[i] == x;
                assert(s[i] == x);
            }
            if s.contains(x) {
                let i = choose|i: int| 0 <= i < s.len() && s[i] == x;
                if i < prev.len() {
                    assert(prev[i] == x);
                }
            }
            if !d.contains(s.last()) {
                if d.push(s.last()).contains(x) {
                    let i = choose|i: int| 0 <= i < d.push(s.last()).len() && d.push(s.last())[i] == x;
                    if i < d.len() {
                        assert(d[i] == x);
                    }
                }
                if x == s.last() {
                    assert(d.push(s.last())[d.len() as int] == x);
                }
                if d.contains(x) {
                    let i = choose|i: int| 0 <= i < d.len() && d[i] == x;
                    assert(d.push(s.last())[i] == x);
                }
            }
        }
    }
}

proof fn lemma_expansion(names: Seq<Seq<char>>, groups: GroupsView, x: Seq<char>)
    ensures
        expansion(names, groups).contains(x) <==> exists|i: int|
            0 <= i < names.len() && #[trigger] expand_one(groups, names[i]).contains(x),
    decreases names.len(),
{
    if names.len() > 0 {
        let prev = names.drop_last();
        lemma_expansion(prev, groups, x);
        let a = expansion(prev, groups);
        let b = expand_one(groups, names.last());
        let e = expansion(names, groups);
        assert(e == a + b);
        if e.contains(x) {
            let p = choose|p: int| 0 <= p < e.len() && e[p] == x;
            if p < a.len() {
                assert(a[p] == x);
                assert(a.contains(x));
                let i = choose|i: int| 0 <= i < prev.len() && #[trigger] expand_one(groups, prev[i]).contains(x);
                assert(names[i] == prev[i]);
                assert(expand_one(groups, names[i]).contains(x));
            } else {
                assert(b[p - a.len()] == x);
                assert(names[names.len() - 1] == names.last());
                assert(expand_one(groups, names[names.len() - 1]).contains(x));
            }
        }
        if exists|i: int| 0 <= i < names.len() && #[trigger] expand_one(groups, names[i]).contains(x) {
            let i = choose|i: int| 0 <= i < names.len() && #[trigger] expand_one(groups, names[i]).contains(x);
            if i < prev.len() {
                assert(prev[i] == names[i]);
                let p = choose|p: int| 0 <= p < a.len() && a[p] == x;
                assert(e[p] == x);
            } else {
                let p = choose|p: int| 0 <= p < b.len() && b[p] == x;
                assert(e[a.len() + p] == x);
            }
        }
    }
}

/// The names to open contain no repeats, and they are exactly the names given
/// that are not groups together with the members of the groups given.
pub proof fn law_names_to_open(names: Seq<Seq<char>>, groups: GroupsView, x: Seq<char>)
    ensures
        names_to_open(names, groups).no_duplicates(),
        names_to_open(names, groups).contains(x) <==> exists|i: int|
            0 <= i < names.len() && if has_key(groups, names[i]) {
                value_of(groups, names[i]).contains(x)
            } else {
                names[i] == x
            },
{
    lemma_first_occurrences(expansion(names, groups));
    lemma_expansion(names, groups, x);
    if names_to_open(names, groups).contains(x) {
        let i = choose|i: int| 0 <= i < names.len() && #[trigger] expand_one(groups, names[i]).contains(x);
        if !has_key(groups, names[i]) {
            assert(seq![names[i]].contains(x));
            let k = choose|k: int| 0 <= k < seq![names[i]].len() && seq![names[i]][k] == x;
            assert(k == 0);
        }
    }
    if exists|i: int|
        0 <= i < names.len() && if has_key(groups, names[i]) {
            value_of(groups, names[i]).contains(x)
        } else {
            names[i] == x
        } {
        let i = choose|i: int|
            0 <= i < names.len() && if has_key(groups, names[i]) {
                value_of(groups, names[i]).contains(x)
            } else {
                names[i] == x
            };
        if !has_key(groups, names[i]) {
            assert(seq![names[i]][0] == x);
        }
        assert(expand_one(groups, names[i]).contains(x));
    }
}

/// The order of names is irreflexive.
pub proof fn lemma_name_lt_irreflexive(a: Seq<char>)
    ensures
        !name_lt(a, a),
    decreases a.len(),
{
    if a.len() > 0 {
        lemma_name_lt_irreflexive(a.drop_first());
    }
}

/// The order of names is transitive.
pub proof fn lemma_name_lt_transitive(a: Seq<char>, b: Seq<char>, c: Seq<char>)
    requires
        name_lt(a, b),
        name_lt(b, c),
    ensures
        name_lt(a, c),
    decreases a.len(),
{
    if a.len() > 0 && b.len() > 0 && c.len() > 0 {
        if a[0] == b[0] && b[0] == c[0] {
            lemma_name_lt_transitive(a.drop_first(), b.drop_first(), c.drop_first());
        }
    }
}

/// Two different names are ordered one way or the other.
pub proof fn lemma_name_lt_total(a: Seq<char>, b: Seq<char>)
    requires
        a != b,
    ensures
        name_lt(a, b) || name_lt(b, a),
    decreases a.len(),
{
    if a.len() > 0 && b.len() > 0 {
        if a[0] == b[0] {
            if a.drop_first() == b.drop_first() {
                assert(a =~= seq![a[0]] + a.drop_first());
                assert(b =~= seq![b[0]] + b.drop_first());
            }
            lemma_name_lt_total(a.drop_first(), b.drop_first());
        }
    } else if a.len() == 0 && b.len() == 0 {
        assert(a =~= b);
    }
}

/// `order` lists the positions `0..n`, each once, sorted by the names at them.
pub open spec fn sorts_by_name(order: Seq<int>, keys: Seq<Seq<char>>, n: int) -> bool {
    &&& order.len() == n
    &&& forall|j: int| 0 <= j < n ==> 0 <= #[trigger] order[j] < n
    &&& forall|k: int| 0 <= k < n ==> order.contains(k)
    &&& forall|p: int, q: int|
        #![trigger order[p], order[q]]
        0 <= p < q < n ==> name_lt(keys[order[p]], keys[order[q]])
}

proof fn lemma_insertion_point_exists(order: Seq<int>, keys: Seq<Seq<char>>, i: int, p: int)
    requires
        0 <= p <= order.len(),
        forall|j: int| 0 <= j < p ==> name_lt(keys[#[trigger] order[j]], keys[i]),
    ensures
        is_insertion_point(order, keys, i, insertion_point(order, keys, i)),
    decreases order.len() - p,
{
    if p == order.len() || !name_lt(keys[order[p]], keys[i]) {
        assert(is_insertion_point(order, keys, i, p));
    } else {
        lemma_insertion_point_exists(order, keys, i, p + 1);
    }
}

/// Sorting by insertion lists every position once, in strictly increasing
/// order of names, when the names are distinct.
pub proof fn law_name_order_sorts(keys: Seq<Seq<char>>, n: nat)
    requires
        n <= keys.len(),
        forall|i: int, j: int| 0 <= i < j < n ==> keys[i] != keys[j],
    ensures
        sorts_by_name(name_order(keys, n), keys, n as int),
    decreases n,
{
    if n > 0 {
        let m = (n - 1) as nat;
        law_name_order_sorts(keys, m);
        let o = name_order(keys, m);
        let i = n - 1;
        lemma_insertion_point_exists(o, keys, i, 0);
        let p = insertion_point(o, keys, i);
        let r = o.insert(p, i);
        assert(r == name_order(keys, n));
        assert forall|j: int| 0 <= j < n implies 0 <= #[trigger] r[j] < n by {
            if j < p {
                assert(r[j] == o[j]);
            } else if j > p {
                assert(r[j] == o[j - 1]);
            }
        }
        assert forall|k: int| 0 <= k < n implies r.contains(k) by {
            if k == i {
                assert(r[p] == k);
            } else {
                assert(o.contains(k));
                let j = choose|j: int| 0 <= j < o.len() && o[j] == k;
                if j < p {
                    assert(r[j] == k);
                } else {
                    assert(r[j + 1] == k);
                }
            }
        }
        if p < o.len() {
            assert(keys[o[p]] != keys[i]);
            lemma_name_lt_total(keys[o[p]], keys[i]);
        }
        assert forall|a: int, b: int|
            #![trigger r[a], r[b]]
            0 <= a < b < n implies name_lt(keys[r[a]], keys[r[b]]) by {
            if b < p {
                assert(r[a] == o[a] && r[b] == o[b]);
            } else if b == p {
                assert(r[a] == o[a] && r[b] == i);
            } else if a < p {
                assert(r[a] == o[a] && r[b] == o[b - 1]);
                assert(name_lt(keys[o[a]], keys[i]));
                assert(name_lt(keys[i], keys[o[p]]));
                if b - 1 > p {
                    assert(name_lt(keys[o[p]], keys[o[b - 1]]));
                    lemma_name_lt_transitive(keys[i], keys[o[p]], keys[o[b - 1]]);
                }
                lemma_name_lt_transitive(keys[o[a]], keys[i], keys[o[b - 1]]);
            } else if a == p {
                assert(r[a] == i && r[b] == o[b - 1]);
                if b - 1 > p {
                    assert(name_lt(keys[o[p]], keys[o[b - 1]]));
                    lemma_name_lt_transitive(keys[i], keys[o[p]], keys[o[b - 1]]);
                }
            } else {
                assert(r[a] == o[a - 1] && r[b] == o[b - 1]);
            }
        }
    }
}

/// The listing shows the entries of a map of distinct names each once, in
/// strictly increasing order of names.
pub proof fn law_listing_order<W>(s: Seq<(Seq<char>, W)>)
    requires
        distinct_keys(s),
    ensures
        sorts_by_name(name_order(keys_of(s), s.len()), keys_of(s), s.len() as int),
{
    let keys = keys_of(s);
    assert forall|i: int, j: int| 0 <= i < j < s.len() implies keys[i] != keys[j] by {
        assert(keys[i] == s[i].0 && keys[j] == s[j].0);
    }
    law_name_order_sorts(keys, s.len());
}

} // verus!
