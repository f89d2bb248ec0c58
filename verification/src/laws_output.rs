//! Properties of what the library prints and decides: the listing, the
//! warnings of a configuration, the entries made from parts, and the choice of
//! bookmarks file.
use vstd::prelude::*;

use crate::cli::{storage_choice, StorageChoice};
use crate::config::{resolve_name, ConfigView, GroupsView, UrlsView};
use crate::error::ErrorView;
use crate::entry::{entry_from_parts, UrlEntryView};
use crate::laws::{law_listing_order, sorts_by_name};
use crate::listing::{
    byte_len, group_line, group_section, joined, keys_of, max_width, name_order, padded,
    url_line, url_section,
};
use crate::name_map::{distinct_keys, has_key};
use crate::validate::{
    alias_occurrences, alias_warnings, config_warnings, first_owners, group_occurrences,
    group_warnings, occurrence_warnings, WarningView,
};

verus! {

/// The group section of a listing: nothing when there are no groups; else a
/// heading, a blank line, one line for each group, and a blank line, where the
/// group lines come in strictly increasing order of group name, each group
/// once, with names padded to the widest.
pub proof fn law_group_section_sorted(groups: GroupsView)
    requires
        distinct_keys(groups),
    ensures
        groups.len() == 0 ==> group_section(groups) == Seq::<Seq<char>>::empty(),
        groups.len() > 0 ==> {
            let lines = group_section(groups);
            let n = groups.len() as int;
            &&& lines.len() == n + 3
            &&& lines[0] == "groups:"@
            &&& lines[1] == Seq::<char>::empty()
            &&& lines[n + 2] == Seq::<char>::empty()
            &&& exists|order: Seq<int>|
                #[trigger] sorts_by_name(order, keys_of(groups), n) && forall|k: int|
                    2 <= k < n + 2 ==> #[trigger] lines[k] == group_line(
                        groups[order[k - 2]].0,
                        groups[order[k - 2]].1,
                        max_width(keys_of(groups)),
                    )
        },
{
    if groups.len() > 0 {
        law_listing_order(groups);
        let lines = group_section(groups);
        let n = groups.len() as int;
        let keys = keys_of(groups);
        let order = name_order(keys, groups.len());
        assert(sorts_by_name(order, keys, n));
        assert forall|k: int| 2 <= k < n + 2 implies #[trigger] lines[k] == group_line(
            groups[order[k - 2]].0,
            groups[order[k - 2]].1,
            max_width(keys),
        ) by {}
    }
}

/// The url section of a listing: nothing when there are no urls; else a
/// heading, a blank line, one line for each url, and a blank line, where the
/// url lines come in strictly increasing order of url name, each url once,
/// with names padded to the widest.
pub proof fn law_url_section_sorted(urls: UrlsView)
    requires
        distinct_keys(urls),
    ensures
        urls.len() == 0 ==> url_section(urls) == Seq::<Seq<char>>::empty(),
        urls.len() > 0 ==> {
            let lines = url_section(urls);
            let n = urls.len() as int;
            &&& lines.len() == n + 3
            &&& lines[0] == "urls:"@
            &&& lines[1] == Seq::<char>::empty()
            &&& lines[n + 2] == Seq::<char>::empty()
            &&& exists|order: Seq<int>|
                #[trigger] sorts_by_name(order, keys_of(urls), n) && forall|k: int|
                    2 <= k < n + 2 ==> #[trigger] lines[k] == url_line(
                        urls[order[k - 2]].0,
                        urls[order[k - 2]].1,
                        max_width(keys_of(urls)),
                    )
        },
{
    if urls.len() > 0 {
        law_listing_order(urls);
        let lines = url_section(urls);
        let n = urls.len() as int;
        let keys = keys_of(urls);
        let order = name_order(keys, urls.len());
        assert(sorts_by_name(order, keys, n));
        assert forall|k: int| 2 <= k < n + 2 implies #[trigger] lines[k] == url_line(
            urls[order[k - 2]].0,
            urls[order[k - 2]].1,
            max_width(keys),
        ) by {}
    }
}

/// A url line shows the name padded, then the url, and a list of aliases
/// exactly when the entry has some: a plain url and a full entry without
/// aliases print alike.
pub proof fn law_url_line(name: Seq<char>, e: UrlEntryView, width: int)
    ensures
        e.aliases().len() == 0 ==> url_line(name, e, width) == "• "@ + padded(name, width)
            + " | "@ + e.url(),
        e.aliases().len() > 0 ==> url_line(name, e, width) == "• "@ + padded(name, width)
            + " | "@ + e.url() + " (aliases: "@ + joined(e.aliases(), ", "@) + ")"@,
        url_line(name, UrlEntryView::Full { url: e.url(), aliases: Seq::empty() }, width)
            == url_line(name, UrlEntryView::Simple(e.url()), width),
{
}

/// The choice of bookmarks file: an explicit file is used when it exists and
/// is reported missing otherwise, whatever else is asked; without one, the
/// local flag picks `./bookmarks.toml` whether or not it exists (it is then
/// created); without either, an existing `./bookmarks.toml` is used unless
/// the global file is asked for, and the global file otherwise.
pub proof fn law_storage_choice(
    explicit: bool,
    explicit_exists: bool,
    explicit_text: Seq<char>,
    local: bool,
    global: bool,
    cwd_file_exists: bool,
)
    ensures
        ({
            let r = storage_choice(
                explicit,
                explicit_exists,
                explicit_text,
                local,
                global,
                cwd_file_exists,
            );
            &&& explicit && explicit_exists ==> r == Ok::<StorageChoice, ErrorView>(
                StorageChoice::Explicit,
            )
            &&& explicit && !explicit_exists ==> r == Err::<StorageChoice, ErrorView>(
                ErrorView::BookmarksFileNotFound(explicit_text),
            )
            &&& !explicit && local ==> r == Ok::<StorageChoice, ErrorView>(StorageChoice::Local)
            &&& !explicit && !local && !global && cwd_file_exists ==> r == Ok::<
                StorageChoice,
                ErrorView,
            >(StorageChoice::CurrentDir)
            &&& !explicit && !local && (global || !cwd_file_exists) ==> r == Ok::<
                StorageChoice,
                ErrorView,
            >(StorageChoice::Global)
        }),
{
}

/// An entry made from a url and aliases keeps the url and every alias given,
/// in order; it is a plain url exactly when no alias is given.
pub proof fn law_entry_from_parts(url: Seq<char>, aliases: Option<Seq<Seq<char>>>)
    ensures
        entry_from_parts(url, aliases).url() == url,
        aliases matches Some(a) ==> entry_from_parts(url, aliases).aliases() == a,
        aliases matches Some(a) ==> forall|i: int|
            0 <= i < a.len() ==> entry_from_parts(url, aliases).has_alias(#[trigger] a[i]),
        aliases is None ==> entry_from_parts(url, aliases).aliases().len() == 0,
        entry_from_parts(url, aliases) is Simple <==> (aliases is None || aliases->0.len() == 0),
{
    if let Some(a) = aliases {
        assert forall|i: int| 0 <= i < a.len() implies entry_from_parts(
            url,
            aliases,
        ).has_alias(#[trigger] a[i]) by {
            assert(entry_from_parts(url, aliases).aliases()[i] == a[i]);
        }
    }
}

/// The test "names neither a url nor an alias of `urls`".
pub open spec fn names_nothing(urls: UrlsView) -> spec_fn(Seq<char>) -> bool {
    |e: Seq<char>| resolve_name(urls, e) is None
}

/// The test "is a warning about a group entry that names nothing".
pub open spec fn is_unknown_entry() -> spec_fn(WarningView) -> bool {
    |w: WarningView| w is UnknownGroupEntry
}

/// One warning for each entry of one group that names nothing, in order.
pub open spec fn group_unknowns(urls: UrlsView, group: (Seq<char>, Seq<Seq<char>>)) -> Seq<
    WarningView,
> {
    group.1.filter(names_nothing(urls)).map_values(
        |e: Seq<char>| WarningView::UnknownGroupEntry { group: group.0, entry: e },
    )
}

/// The warnings about group entries that name nothing, group by group.
pub open spec fn unknown_entries(urls: UrlsView, groups: GroupsView) -> Seq<WarningView> {
    groups.map_values(|g: (Seq<char>, Seq<Seq<char>>)| group_unknowns(urls, g)).flatten()
}

proof fn lemma_filter_none<A>(s: Seq<A>, p: spec_fn(A) -> bool)
    requires
        forall|i: int| 0 <= i < s.len() ==> !p(#[trigger] s[i]),
    ensures
        s.filter(p) == Seq::<A>::empty(),
    decreases s.len(),
{
    reveal(Seq::filter);
    if s.len() > 0 {
        lemma_filter_none(s.drop_last(), p);
        assert(!p(s[s.len() - 1]));
    }
}

proof fn lemma_filter_all<A>(s: Seq<A>, p: spec_fn(A) -> bool)
    requires
        forall|i: int| 0 <= i < s.len() ==> p(#[trigger] s[i]),
    ensures
        s.filter(p) == s,
    decreases s.len(),
{
    reveal(Seq::filter);
    if s.len() > 0 {
        lemma_filter_all(s.drop_last(), p);
        assert(p(s[s.len() - 1]));
        assert(s.drop_last().push(s.last()) =~= s);
    }
}

proof fn lemma_alias_warnings_kinds(occ: Seq<(Seq<char>, Seq<char>)>, urls: UrlsView)
    ensures
        forall|i: int|
            0 <= i < alias_warnings(occ, urls).len() ==> !(#[trigger] alias_warnings(
                occ,
                urls,
            )[i] is UnknownGroupEntry),
    decreases occ.len(),
{
    if occ.len() > 0 {
        lemma_alias_warnings_kinds(occ.drop_last(), urls);
    }
}

proof fn lemma_group_warnings_kinds(occ: Seq<(Seq<char>, Seq<char>)>, urls: UrlsView)
    ensures
        forall|i: int|
            0 <= i < group_warnings(occ, urls).len() ==> #[trigger] group_warnings(
                occ,
                urls,
            )[i] is UnknownGroupEntry,
    decreases occ.len(),
{
    if occ.len() > 0 {
        lemma_group_warnings_kinds(occ.drop_last(), urls);
    }
}

proof fn lemma_group_warnings_add(
    a: Seq<(Seq<char>, Seq<char>)>,
    b: Seq<(Seq<char>, Seq<char>)>,
    urls: UrlsView,
)
    ensures
        group_warnings(a + b, urls) == group_warnings(a, urls) + group_warnings(b, urls),
    decreases b.len(),
{
    if b.len() == 0 {
        assert(a + b =~= a);
        assert(group_warnings(a, urls) + group_warnings(b, urls) =~= group_warnings(a, urls));
    } else {
        lemma_group_warnings_add(a, b.drop_last(), urls);
        assert((a + b).drop_last() =~= a + b.drop_last());
        assert((a + b).last() == b.last());
    }
}

proof fn lemma_one_group(
    ys: Seq<(Seq<char>, Seq<char>)>,
    group: (Seq<char>, Seq<Seq<char>>),
    urls: UrlsView,
)
    requires
        ys.len() == group.1.len(),
        forall|i: int| 0 <= i < ys.len() ==> #[trigger] ys[i] == (group.0, group.1[i]),
    ensures
        group_warnings(ys, urls) == group_unknowns(urls, group),
    decreases ys.len(),
{
    reveal(Seq::filter);
    let xs = group.1;
    if ys.len() == 0 {
        assert(group_unknowns(urls, group) =~= Seq::<WarningView>::empty());
    } else {
        let prev = (group.0, xs.drop_last());
        assert forall|i: int| 0 <= i < ys.drop_last().len() implies #[trigger] ys.drop_last()[i]
            == (prev.0, prev.1[i]) by {
            assert(ys[i] == (group.0, xs[i]));
        }
        lemma_one_group(ys.drop_last(), prev, urls);
        assert(ys.last() == (group.0, xs.last()));
        let p = names_nothing(urls);
        let w = WarningView::UnknownGroupEntry { group: group.0, entry: xs.last() };
        if p(xs.last()) {
            assert(xs.filter(p) == xs.drop_last().filter(p).push(xs.last()));
            assert(group_unknowns(urls, group) =~= group_unknowns(urls, prev).push(w));
            assert(group_warnings(ys, urls) =~= group_warnings(ys.drop_last(), urls).push(w));
        } else {
            assert(xs.filter(p) == xs.drop_last().filter(p));
            assert(group_unknowns(urls, group) =~= group_unknowns(urls, prev));
            assert(group_warnings(ys, urls) =~= group_warnings(ys.drop_last(), urls));
        }
    }
}

proof fn lemma_unknown_entries(groups: GroupsView, urls: UrlsView)
    ensures
        group_warnings(group_occurrences(groups), urls) == unknown_entries(urls, groups),
    decreases groups.len(),
{
    let f = |g: (Seq<char>, Seq<Seq<char>>)| group_unknowns(urls, g);
    if groups.len() == 0 {
        assert(groups.map_values(f) =~= Seq::<Seq<WarningView>>::empty());
    } else {
        let prev = groups.drop_last();
        let last = groups.last();
        lemma_unknown_entries(prev, urls);
        let tail = last.1.map_values(|e: Seq<char>| (last.0, e));
        assert(group_occurrences(groups) == group_occurrences(prev) + tail);
        lemma_group_warnings_add(group_occurrences(prev), tail, urls);
        lemma_one_group(tail, last, urls);
        assert(groups.map_values(f) =~= prev.map_values(f).push(f(last)));
        prev.map_values(f).lemma_flatten_push(f(last));
    }
}

/// Every entry of a group that names neither a url nor an alias gives its own
/// warning, and no other warning is about group entries: the warnings of this
/// kind are exactly one per such entry, group by group, in order.
pub proof fn law_unknown_entry_warnings(c: ConfigView)
    ensures
        config_warnings(c).filter(is_unknown_entry()) == unknown_entries(c.urls, c.groups),
{
    broadcast use vstd::seq_lib::group_filter_ensures;

    let aw = alias_warnings(alias_occurrences(c.urls), c.urls);
    let gw = group_warnings(group_occurrences(c.groups), c.urls);
    let p = is_unknown_entry();
    lemma_alias_warnings_kinds(alias_occurrences(c.urls), c.urls);
    lemma_group_warnings_kinds(group_occurrences(c.groups), c.urls);
    Seq::filter_distributes_over_add(aw, gw, p);
    lemma_filter_none(aw, p);
    lemma_filter_all(gw, p);
    lemma_unknown_entries(c.groups, c.urls);
    assert(aw.filter(p) + gw.filter(p) =~= gw);
}

/// The width of the name column is the byte length of the longest name, and 0
/// when there are no names.
pub proof fn law_max_width(keys: Seq<Seq<char>>)
    ensures
        forall|i: int| 0 <= i < keys.len() ==> byte_len(#[trigger] keys[i]) <= max_width(keys),
        keys.len() == 0 ==> max_width(keys) == 0,
        keys.len() > 0 ==> exists|i: int|
            0 <= i < keys.len() && byte_len(#[trigger] keys[i]) == max_width(keys),
    decreases keys.len(),
{
    if keys.len() > 0 {
        let prev = keys.drop_last();
        law_max_width(prev);
        assert forall|i: int| 0 <= i < keys.len() implies byte_len(#[trigger] keys[i])
            <= max_width(keys) by {
            if i < prev.len() {
                assert(keys[i] == prev[i]);
            }
        }
        if byte_len(keys.last()) > max_width(prev) || prev.len() == 0 {
            assert(byte_len(keys[keys.len() - 1]) == max_width(keys));
        } else {
            let j = choose|j: int| 0 <= j < prev.len() && byte_len(#[trigger] prev[j]) == max_width(prev);
            assert(keys[j] == prev[j]);
        }
    }
}

/// A padded name starts with the name and is filled with spaces up to the
/// width; a name at least as long as the width is left as it is.
pub proof fn law_padded(name: Seq<char>, width: int)
    ensures
        padded(name, width).len() == if name.len() < width {
            width
        } else {
            name.len() as int
        },
        padded(name, width).take(name.len() as int) == name,
        forall|i: int|
            name.len() <= i < padded(name, width).len() ==> #[trigger] padded(name, width)[i]
                == ' ',
{
    assert(padded(name, width).take(name.len() as int) =~= name);
}

/// The test "is the name of a url of `urls`".
pub open spec fn names_url(urls: UrlsView) -> spec_fn(Seq<char>) -> bool {
    |a: Seq<char>| has_key(urls, a)
}

/// The test "is a warning about an alias that is also a url name".
pub open spec fn is_shadow() -> spec_fn(WarningView) -> bool {
    |w: WarningView| w is ShadowsUrlName
}

/// One warning for each of the aliases `aliases` of the url `owner` that is
/// also a url name, in order.
pub open spec fn shadows_of(urls: UrlsView, owner: Seq<char>, aliases: Seq<Seq<char>>) -> Seq<
    WarningView,
> {
    aliases.filter(names_url(urls)).map_values(
        |a: Seq<char>| WarningView::ShadowsUrlName { alias: a, owner },
    )
}

/// The warnings about aliases that are url names, url by url.
pub open spec fn shadowing_aliases(urls: UrlsView, of: UrlsView) -> Seq<WarningView> {
    of.map_values(
        |u: (Seq<char>, UrlEntryView)| shadows_of(urls, u.0, u.1.aliases()),
    ).flatten()
}

proof fn lemma_occurrence_shadows(
    seen: Map<Seq<char>, Seq<char>>,
    a: Seq<char>,
    o: Seq<char>,
    urls: UrlsView,
)
    ensures
        occurrence_warnings(seen, a, o, urls).filter(is_shadow()) == if has_key(urls, a) {
            seq![WarningView::ShadowsUrlName { alias: a, owner: o }]
        } else {
            Seq::<WarningView>::empty()
        },
{
    let d = if seen.contains_key(a) {
        seq![WarningView::DuplicateAlias { alias: a, owner: o, other: seen[a] }]
    } else {
        Seq::<WarningView>::empty()
    };
    let sh = if has_key(urls, a) {
        seq![WarningView::ShadowsUrlName { alias: a, owner: o }]
    } else {
        Seq::<WarningView>::empty()
    };
    assert(occurrence_warnings(seen, a, o, urls) == d + sh);
    Seq::filter_distributes_over_add(d, sh, is_shadow());
    lemma_filter_none(d, is_shadow());
    lemma_filter_all(sh, is_shadow());
    assert(d.filter(is_shadow()) + sh.filter(is_shadow()) =~= sh);
}

proof fn lemma_alias_shadows_add(
    a: Seq<(Seq<char>, Seq<char>)>,
    b: Seq<(Seq<char>, Seq<char>)>,
    urls: UrlsView,
)
    ensures
        alias_warnings(a + b, urls).filter(is_shadow()) == alias_warnings(a, urls).filter(
            is_shadow(),
        ) + alias_warnings(b, urls).filter(is_shadow()),
    decreases b.len(),
{
    let p = is_shadow();
    if b.len() == 0 {
        assert(a + b =~= a);
        reveal(Seq::filter);
        assert(alias_warnings(a, urls).filter(p) + alias_warnings(b, urls).filter(p)
            =~= alias_warnings(a, urls).filter(p));
    } else {
        let ab = a + b;
        let b0 = b.drop_last();
        lemma_alias_shadows_add(a, b0, urls);
        assert(ab.drop_last() =~= a + b0);
        assert(ab.last() == b.last());
        let (x, o) = b.last();
        let w1 = occurrence_warnings(first_owners(a + b0), x, o, urls);
        let w2 = occurrence_warnings(first_owners(b0), x, o, urls);
        assert(alias_warnings(ab, urls) == alias_warnings(a + b0, urls) + w1);
        assert(alias_warnings(b, urls) == alias_warnings(b0, urls) + w2);
        Seq::filter_distributes_over_add(alias_warnings(a + b0, urls), w1, p);
        Seq::filter_distributes_over_add(alias_warnings(b0, urls), w2, p);
        lemma_occurrence_shadows(first_owners(a + b0), x, o, urls);
        lemma_occurrence_shadows(first_owners(b0), x, o, urls);
        assert(alias_warnings(ab, urls).filter(p) =~= alias_warnings(a, urls).filter(p)
            + alias_warnings(b, urls).filter(p));
    }
}

proof fn lemma_one_url(
    ys: Seq<(Seq<char>, Seq<char>)>,
    owner: Seq<char>,
    xs: Seq<Seq<char>>,
    urls: UrlsView,
)
    requires
        ys.len() == xs.len(),
        forall|i: int| 0 <= i < ys.len() ==> #[trigger] ys[i] == (xs[i], owner),
    ensures
        alias_warnings(ys, urls).filter(is_shadow()) == shadows_of(urls, owner, xs),
    decreases ys.len(),
{
    reveal(Seq::filter);
    let p = is_shadow();
    if ys.len() == 0 {
        assert(shadows_of(urls, owner, xs) =~= Seq::<WarningView>::empty());
    } else {
        let y0 = ys.drop_last();
        let x0 = xs.drop_last();
        assert forall|i: int| 0 <= i < y0.len() implies #[trigger] y0[i] == (x0[i], owner) by {
            assert(ys[i] == (xs[i], owner));
        }
        lemma_one_url(y0, owner, x0, urls);
        assert(ys.last() == (xs.last(), owner));
        let w = occurrence_warnings(first_owners(y0), xs.last(), owner, urls);
        assert(alias_warnings(ys, urls) == alias_warnings(y0, urls) + w);
        Seq::filter_distributes_over_add(alias_warnings(y0, urls), w, p);
        lemma_occurrence_shadows(first_owners(y0), xs.last(), owner, urls);
        let sw = WarningView::ShadowsUrlName { alias: xs.last(), owner };
        if has_key(urls, xs.last()) {
            assert(xs.filter(names_url(urls)) == x0.filter(names_url(urls)).push(xs.last()));
            assert(shadows_of(urls, owner, xs) =~= shadows_of(urls, owner, x0).push(sw));
            assert(alias_warnings(ys, urls).filter(p) =~= alias_warnings(y0, urls).filter(p).push(
                sw,
            ));
        } else {
            assert(xs.filter(names_url(urls)) == x0.filter(names_url(urls)));
            assert(shadows_of(urls, owner, xs) =~= shadows_of(urls, owner, x0));
            assert(alias_warnings(ys, urls).filter(p) =~= alias_warnings(y0, urls).filter(p));
        }
    }
}

proof fn lemma_shadowing_aliases(of: UrlsView, urls: UrlsView)
    ensures
        alias_warnings(alias_occurrences(of), urls).filter(is_shadow()) == shadowing_aliases(
            urls,
            of,
        ),
    decreases of.len(),
{
    let f = |u: (Seq<char>, UrlEntryView)| shadows_of(urls, u.0, u.1.aliases());
    if of.len() == 0 {
        reveal(Seq::filter);
        assert(of.map_values(f) =~= Seq::<Seq<WarningView>>::empty());
    } else {
        let prev = of.drop_last();
        let last = of.last();
        lemma_shadowing_aliases(prev, urls);
        let tail = last.1.aliases().map_values(|a: Seq<char>| (a, last.0));
        assert(alias_occurrences(of) == alias_occurrences(prev) + tail);
        lemma_alias_shadows_add(alias_occurrences(prev), tail, urls);
        lemma_one_url(tail, last.0, last.1.aliases(), urls);
        assert(of.map_values(f) =~= prev.map_values(f).push(f(last)));
        prev.map_values(f).lemma_flatten_push(f(last));
    }
}

/// Every alias that is also the name of a url gives its own warning, on the
/// url that carries it, and no other warning is of this kind: the warnings of
/// this kind are exactly one per such alias, url by url, in order.
pub proof fn law_shadow_warnings(c: ConfigView)
    ensures
        config_warnings(c).filter(is_shadow()) == shadowing_aliases(c.urls, c.urls),
{
    let aw = alias_warnings(alias_occurrences(c.urls), c.urls);
    let gw = group_warnings(group_occurrences(c.groups), c.urls);
    let p = is_shadow();
    lemma_group_warnings_kinds(group_occurrences(c.groups), c.urls);
    Seq::filter_distributes_over_add(aw, gw, p);
    lemma_filter_none(gw, p);
    lemma_shadowing_aliases(c.urls, c.urls);
    assert(aw.filter(p) + gw.filter(p) =~= aw.filter(p));
}

} // verus!
