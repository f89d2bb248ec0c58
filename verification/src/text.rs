//! Small verified helpers on names and lists of names.
use vstd::prelude::*;

verus! {

/// Whether two strings hold the same characters.
pub fn same_text(a: &str, b: &str) -> (r: bool)
    ensures
        r == (a@ == b@),
{
    let x = a.to_owned();
    let y = b.to_owned();
    x == y
}

/// Whether `name` occurs in `list`.
pub fn list_contains(list: &[String], name: &str) -> (r: bool)
    ensures
        r == list.deep_view().contains(name@),
{
    let n = name.to_owned();
    let mut i: usize = 0;
    while i < list.len()
        invariant
            n@ == name@,
            i <= list@.len(),
            forall|j: int| 0 <= j < i ==> list@[j]@ != name@,
        decreases list@.len() - i,
    {
        if list[i] == n {
            assert(list.deep_view()[i as int] == name@);
            return true;
        }
        i = i + 1;
    }
    assert(!list.deep_view().contains(name@)) by {
        if list.deep_view().contains(name@) {
            let j = choose|j: int| 0 <= j < list.deep_view().len() && list.deep_view()[j] == name@;
            assert(list@[j]@ == name@);
        }
    }
    false
}

/// A copy of `s`.
pub fn copy_text(s: &str) -> (r: String)
    ensures
        r@ == s@,
{
    s.to_owned()
}

/// A copy of a list of strings.
pub fn copy_list(list: &Vec<String>) -> (r: Vec<String>)
    ensures
        r.deep_view() == list.deep_view(),
{
    let mut out: Vec<String> = Vec::new();
    let mut i: usize = 0;
    while i < list.len()
        invariant
            i <= list@.len(),
            out@.len() == i,
            forall|j: int| 0 <= j < i ==> #[trigger] out@[j]@ == list@[j]@,
        decreases list@.len() - i,
    {
        out.push(list[i].as_str().to_owned());
        i = i + 1;
    }
    assert(out.deep_view() =~= list.deep_view());
    out
}

/// `a` followed by `b`.
pub fn join2(a: &str, b: &str) -> (r: String)
    ensures
        r@ == a@ + b@,
{
    let s = a.to_owned();
    s.concat(b)
}

} // verus!
