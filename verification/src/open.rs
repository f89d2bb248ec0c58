//! What opening a list of names means: groups expand to their members, each
//! name is opened once, in the order given, and each resolves to a url.
use vstd::prelude::*;

use crate::config::{resolve_name, Config, GroupsView};
use crate::error::{BookmarksError, ErrorView};
use crate::name_map::{has_key, value_of};
use crate::text::{copy_text, same_text};

verus! {

/// A name, expanded: the members of the group of that name, or else the name itself.
pub open spec fn expand_one(groups: GroupsView, name: Seq<char>) -> Seq<Seq<char>> {
    if has_key(groups, name) {
        value_of(groups, name)
    } else {
        seq![name]
    }
}

/// The names, each expanded, one after the other.
pub open spec fn expansion(names: Seq<Seq<char>>, groups: GroupsView) -> Seq<Seq<char>>
    decreases names.len(),
{
    if names.len() == 0 {
        Seq::empty()
    } else {
        expansion(names.drop_last(), groups) + expand_one(groups, names.last())
    }
}

/// The first occurrence of each element, in order.
pub open spec fn first_occurrences<A>(s: Seq<A>) -> Seq<A>
    decreases s.len(),
{
    if s.len() == 0 {
        Seq::empty()
    } else {
        let d = first_occurrences(s.drop_last());
        if d.contains(s.last()) {
            d
        } else {
            d.push(s.last())
        }
    }
}

/// The names to open: the expansion of `names`, each name once.
pub open spec fn names_to_open(names: Seq<Seq<char>>, groups: GroupsView) -> Seq<Seq<char>> {
    first_occurrences(expansion(names, groups))
}

/// Whether `name` occurs in `list`.
fn refs_contain(list: &Vec<&str>, name: &str) -> (r: bool)
    ensures
        r == list.deep_view().contains(name@),
{
    let mut i: usize = 0;
    while i < list.len()
        invariant
            i <= list@.len(),
            forall|j: int| 0 <= j < i ==> list@[j]@ != name@,
        decreases list@.len() - i,
    {
        if same_text(list[i], name) {
            assert(list.deep_view()[i as int] == name@);
            return true;
        }
        i = i + 1;
    }
    assert(!list.deep_view().contains(name@)) by {
        if list.deep_view().contains(name@) {
            let j = choose|j: int| 0 <= j < list.deep_view().len() && list.deep_view()[j] == name@;
            assert(list@[j]@ == name@);
        }
    }
    false
}

/// Appends `name` unless it is in `out` already.
fn push_new<'a>(out: &mut Vec<&'a str>, name: &'a str)
    ensures
        final(out).deep_view() == (if old(out).deep_view().contains(name@) {
            old(out).deep_view()
        } else {
            old(out).deep_view().push(name@)
        }),
{
    if !refs_contain(out, name) {
        let ghost before = out.deep_view();
        out.push(name);
        assert(out.deep_view() =~= before.push(name@));
    }
}

/// Expands group names into their members and removes repeats, keeping the
/// first occurrence of each name.
pub fn expand_groups<'a>(names: &'a [String], config: &'a Config) -> (r: Vec<&'a str>)
    requires
        config.wf(),
    ensures
        r.deep_view() == names_to_open(names.deep_view(), config@.groups),
{
    let ghost groups = config@.groups;
    let mut expanded: Vec<&'a str> = Vec::new();
    let mut i: usize = 0;
    while i < names.len()
        invariant
            config.wf(),
            groups == config@.groups,
            i <= names@.len(),
            expanded.deep_view() == first_occurrences(
                expansion(names.deep_view().take(i as int), groups),
            ),
        decreases names@.len() - i,
    {
        let ghost base = expansion(names.deep_view().take(i as int), groups);
        let name = names[i].as_str();
        proof {
            assert(names.deep_view().take(i + 1).drop_last() =~= names.deep_view().take(i as int));
            assert(names.deep_view().take(i + 1).last() == name@);
        }
        match config.groups.get(name) {
            Some(items) => {
                let mut j: usize = 0;
                while j < items.len()
                    invariant
                        items.deep_view() == value_of(groups, name@),
                        j <= items@.len(),
                        expanded.deep_view() == first_occurrences(
                            base + items.deep_view().take(j as int),
                        ),
                    decreases items@.len() - j,
                {
                    proof {
                        let next = base + items.deep_view().take(j + 1);
                        assert(next.drop_last() =~= base + items.deep_view().take(j as int));
                        assert(next.last() == items@[j as int]@);
                    }
                    push_new(&mut expanded, items[j].as_str());
                    j = j + 1;
                }
                assert(items.deep_view().take(items@.len() as int) =~= items.deep_view());
            },
            None => {
                proof {
                    let next = base + seq![name@];
                    assert(next.drop_last() =~= base);
                }
                push_new(&mut expanded, name);
            },
        }
        i = i + 1;
    }
    assert(names.deep_view().take(names@.len() as int) =~= names.deep_view());
    expanded
}

/// Looks up the url of a name (url name or alias); fails when it is neither.
pub fn resolve_uri<'a>(name: &str, config: &'a Config) -> (r: Result<&'a str, BookmarksError>)
    requires
        config.wf(),
    ensures
        match r {
            Ok(uri) => resolve_name(config@.urls, name@) == Some(uri@),
            Err(e) => resolve_name(config@.urls, name@) is None && e.deep_view()
                == ErrorView::NameNotFound(name@),
        },
{
    match config.resolve(name) {
        Some(uri) => Ok(uri),
        None => Err(BookmarksError::NameNotFound(copy_text(name))),
    }
}

/// One name to open and what it resolved to.
pub struct OpenTarget {
    pub name: String,
    pub uri: Result<String, BookmarksError>,
}

/// What each name to open resolves to, in the order of `names_to_open`.
pub open spec fn open_plan_matches(targets: Seq<OpenTarget>, names: Seq<Seq<char>>, config: crate::config::ConfigView) -> bool {
    let todo = names_to_open(names, config.groups);
    &&& targets.len() == todo.len()
    &&& forall|i: int|
        0 <= i < targets.len() ==> {
            &&& (#[trigger] targets[i]).name@ == todo[i]
            &&& match targets[i].uri {
                Ok(u) => resolve_name(config.urls, todo[i]) == Some(u@),
                Err(e) => resolve_name(config.urls, todo[i]) is None && e.deep_view()
                    == ErrorView::NameNotFound(todo[i]),
            }
        }
}

/// The names to open, expanded and without repeats, each with its url or the
/// error that it names nothing.
pub fn open_plan(names: &[String], config: &Config) -> (r: Vec<OpenTarget>)
    requires
        config.wf(),
    ensures
        open_plan_matches(r@, names.deep_view(), config@),
{
    let expanded = expand_groups(names, config);
    let mut out: Vec<OpenTarget> = Vec::new();
    let mut i: usize = 0;
    while i < expanded.len()
        invariant
            config.wf(),
            expanded.deep_view() == names_to_open(names.deep_view(), config@.groups),
            i <= expanded@.len(),
            out@.len() == i,
            forall|k: int|
                0 <= k < i ==> {
                    &&& (#[trigger] out@[k]).name@ == expanded@[k]@
                    &&& match out@[k].uri {
                        Ok(u) => resolve_name(config@.urls, expanded@[k]@) == Some(u@),
                        Err(e) => resolve_name(config@.urls, expanded@[k]@) is None
                            && e.deep_view() == ErrorView::NameNotFound(expanded@[k]@),
                    }
                },
        decreases expanded@.len() - i,
    {
        let name = expanded[i];
        let uri = match resolve_uri(name, config) {
            Ok(u) => Ok(copy_text(u)),
            Err(e) => Err(e),
        };
        out.push(OpenTarget { name: copy_text(name), uri });
        i = i + 1;
    }
    assert forall|k: int| 0 <= k < out@.len() implies expanded@[k]@ == names_to_open(
        names.deep_view(),
        config@.groups,
    )[k] by {
        assert(expanded.deep_view()[k] == expanded@[k]@);
    }
    out
}

/// The overall result of opening: it fails only when there was something to
/// open and every attempt failed.
pub fn open_outcome(attempted: usize, failed: usize) -> (r: Result<(), BookmarksError>)
    ensures
        r is Err <==> (failed != 0 && failed == attempted),
        r matches Err(e) ==> e.deep_view() == ErrorView::AllUrlsFailed,
{
    if failed != 0 && failed == attempted {
        Err(BookmarksError::AllUrlsFailed)
    } else {
        Ok(())
    }
}

} // verus!
