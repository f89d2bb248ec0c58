//! The printed listing of a configuration: urls, then groups, each sorted by
//! name, with names padded to a common width.
use vstd::prelude::*;
use vstd::string::StrSliceExecFns;

use crate::config::{Config, ConfigView};
use crate::entry::UrlEntryView;
use crate::name_map::NameMap;
use crate::text::{copy_text, join2};

verus! {

/// The order of `str`: lexicographic by character code.
pub open spec fn name_lt(a: Seq<char>, b: Seq<char>) -> bool
    decreases a.len(),
{
    if a.len() == 0 {
        b.len() > 0
    } else if b.len() == 0 {
        false
    } else if a[0] != b[0] {
        (a[0] as int) < (b[0] as int)
    } else {
        name_lt(a.drop_first(), b.drop_first())
    }
}

/// `p` is where a name goes among `order`: after every name that is smaller
/// and before the first that is not.
pub open spec fn is_insertion_point(order: Seq<int>, keys: Seq<Seq<char>>, i: int, p: int) -> bool {
    &&& 0 <= p <= order.len()
    &&& forall|j: int| 0 <= j < p ==> name_lt(keys[#[trigger] order[j]], keys[i])
    &&& p < order.len() ==> !name_lt(keys[order[p]], keys[i])
}

/// The place where name `i` is inserted into `order`.
pub open spec fn insertion_point(order: Seq<int>, keys: Seq<Seq<char>>, i: int) -> int {
    choose|p: int| is_insertion_point(order, keys, i, p)
}

/// The positions `0..n` of `keys`, inserted one after the other by name.
pub open spec fn name_order(keys: Seq<Seq<char>>, n: nat) -> Seq<int>
    decreases n,
{
    if n == 0 {
        Seq::empty()
    } else {
        let o = name_order(keys, (n - 1) as nat);
        o.insert(insertion_point(o, keys, n - 1), n - 1)
    }
}

/// The number of bytes of a name in UTF-8.
pub open spec fn byte_len(name: Seq<char>) -> int {
    (vstd::utf8::encode_utf8(name).len() as usize) as int
}

/// The largest byte length among `keys`, or 0.
pub open spec fn max_width(keys: Seq<Seq<char>>) -> int
    decreases keys.len(),
{
    if keys.len() == 0 {
        0
    } else {
        let m = max_width(keys.drop_last());
        if byte_len(keys.last()) > m {
            byte_len(keys.last())
        } else {
            m
        }
    }
}

/// `n` spaces.
pub open spec fn spaces(n: int) -> Seq<char> {
    Seq::new(n as nat, |i: int| ' ')
}

/// A name left-aligned in a field of `width` characters.
pub open spec fn padded(name: Seq<char>, width: int) -> Seq<char> {
    if name.len() < width {
        name + spaces(width - name.len())
    } else {
        name
    }
}

/// The names of `list` separated by `sep`.
pub open spec fn joined(list: Seq<Seq<char>>, sep: Seq<char>) -> Seq<char>
    decreases list.len(),
{
    if list.len() == 0 {
        Seq::empty()
    } else if list.len() == 1 {
        list[0]
    } else {
        joined(list.drop_last(), sep) + sep + list.last()
    }
}

/// The line for one url.
pub open spec fn url_line(name: Seq<char>, e: UrlEntryView, width: int) -> Seq<char> {
    let head = "• "@ + padded(name, width) + " | "@ + e.url();
    if e.aliases().len() == 0 {
        head
    } else {
        head + " (aliases: "@ + joined(e.aliases(), ", "@) + ")"@
    }
}

/// The line for one group.
pub open spec fn group_line(name: Seq<char>, entries: Seq<Seq<char>>, width: int) -> Seq<char> {
    "• "@ + padded(name, width) + " | ["@ + joined(entries, ", "@) + "]"@
}

/// The keys of a list of entries.
pub open spec fn keys_of<W>(s: Seq<(Seq<char>, W)>) -> Seq<Seq<char>> {
    s.map_values(|p: (Seq<char>, W)| p.0)
}

/// The url section: a heading, a blank line, one line per url by name, a blank
/// line; nothing when there are no urls.
pub open spec fn url_section(urls: Seq<(Seq<char>, UrlEntryView)>) -> Seq<Seq<char>> {
    let keys = keys_of(urls);
    let order = name_order(keys, urls.len());
    let width = max_width(keys);
    if urls.len() == 0 {
        Seq::empty()
    } else {
        seq!["urls:"@, Seq::empty()] + Seq::new(
            urls.len(),
            |k: int| url_line(urls[order[k]].0, urls[order[k]].1, width),
        ) + seq![Seq::empty()]
    }
}

/// The group section, laid out as the url section.
pub open spec fn group_section(groups: Seq<(Seq<char>, Seq<Seq<char>>)>) -> Seq<Seq<char>> {
    let keys = keys_of(groups);
    let order = name_order(keys, groups.len());
    let width = max_width(keys);
    if groups.len() == 0 {
        Seq::empty()
    } else {
        seq!["groups:"@, Seq::empty()] + Seq::new(
            groups.len(),
            |k: int| group_line(groups[order[k]].0, groups[order[k]].1, width),
        ) + seq![Seq::empty()]
    }
}

/// The listing of a configuration, line by line.
pub open spec fn listing(c: ConfigView) -> Seq<Seq<char>> {
    url_section(c.urls) + group_section(c.groups)
}

/// The characters of a string.
fn chars_of(s: &str) -> (r: Vec<char>)
    ensures
        r@ == s@,
{
    let n = s.unicode_len();
    let mut out: Vec<char> = Vec::new();
    let mut i: usize = 0;
    while i < n
        invariant
            n == s@.len(),
            i <= n,
            out@ == s@.take(i as int),
        decreases n - i,
    {
        out.push(s.get_char(i));
        i = i + 1;
        assert(out@ =~= s@.take(i as int));
    }
    assert(s@.take(n as int) =~= s@);
    out
}

/// Whether `a` comes before `b` in the order of `str`.
pub fn name_before(a: &str, b: &str) -> (r: bool)
    ensures
        r == name_lt(a@, b@),
{
    let x = chars_of(a);
    let y = chars_of(b);
    let mut i: usize = 0;
    assert(a@.skip(0) =~= a@);
    assert(b@.skip(0) =~= b@);
    while i < x.len() && i < y.len()
        invariant
            x@ == a@,
            y@ == b@,
            i <= x@.len(),
            i <= y@.len(),
            name_lt(a@, b@) == name_lt(a@.skip(i as int), b@.skip(i as int)),
        decreases x@.len() - i,
    {
        let ghost xs = a@.skip(i as int);
        let ghost ys = b@.skip(i as int);
        assert(xs[0] == x@[i as int] && ys[0] == y@[i as int]);
        if x[i] != y[i] {
            return x[i] < y[i];
        }
        assert(xs.drop_first() =~= a@.skip(i + 1));
        assert(ys.drop_first() =~= b@.skip(i + 1));
        i = i + 1;
    }
    x.len() - i < y.len() - i
}

/// The positions of the entries of `m`, sorted by name.
pub fn sorted_positions<V: DeepView>(m: &NameMap<V>) -> (r: Vec<usize>)
    requires
        m.wf(),
    ensures
        r@.map_values(|x: usize| x as int) == name_order(keys_of(m@), m@.len()),
        r@.len() == m@.len(),
        forall|j: int| 0 <= j < r@.len() ==> #[trigger] r@[j] < m@.len(),
{
    let ghost keys = keys_of(m@);
    let n = m.len();
    let mut order: Vec<usize> = Vec::new();
    let mut i: usize = 0;
    while i < n
        invariant
            m.wf(),
            keys == keys_of(m@),
            n == m@.len(),
            i <= n,
            order@.len() == i,
            forall|k: int| 0 <= k < i ==> #[trigger] order@[k] < n,
            order@.map_values(|x: usize| x as int) == name_order(keys, i as nat),
        decreases n - i,
    {
        let ghost o = order@.map_values(|x: usize| x as int);
        let name = m.key_at(i).as_str();
        let mut p: usize = 0;
        while p < order.len() && name_before(m.key_at(order[p]).as_str(), name)
            invariant
                m.wf(),
                keys == keys_of(m@),
                n == m@.len(),
                i < n,
                order@.len() == i,
                name@ == keys[i as int],
                o == order@.map_values(|x: usize| x as int),
                forall|k: int| 0 <= k < i ==> #[trigger] order@[k] < n,
                p <= order@.len(),
                forall|j: int| 0 <= j < p ==> name_lt(keys[#[trigger] o[j]], keys[i as int]),
            decreases order@.len() - p,
        {
            assert(keys[o[p as int]] == m@[order@[p as int] as int].0);
            p = p + 1;
        }
        proof {
            if p < order@.len() {
                assert(keys[o[p as int]] == m@[order@[p as int] as int].0);
            }
            assert(is_insertion_point(o, keys, i as int, p as int));
            let q = insertion_point(o, keys, i as int);
            assert(is_insertion_point(o, keys, i as int, q));
            if q < p {
                assert(name_lt(keys[o[q]], keys[i as int]));
            }
            if p < q {
                assert(name_lt(keys[o[p as int]], keys[i as int]));
            }
        }
        order.insert(p, i);
        assert(order@.map_values(|x: usize| x as int) =~= o.insert(p as int, i as int));
        i = i + 1;
    }
    order
}

/// The largest byte length among the keys of `m`, or 0.
fn widest_key<V: DeepView>(m: &NameMap<V>) -> (r: usize)
    requires
        m.wf(),
    ensures
        r == max_width(keys_of(m@)),
{
    let ghost keys = keys_of(m@);
    let n = m.len();
    let mut w: usize = 0;
    let mut i: usize = 0;
    while i < n
        invariant
            m.wf(),
            keys == keys_of(m@),
            n == m@.len(),
            i <= n,
            w == max_width(keys.take(i as int)),
        decreases n - i,
    {
        let l = m.key_at(i).as_str().len();
        proof {
            assert(keys.take(i + 1).drop_last() =~= keys.take(i as int));
            assert(keys.take(i + 1).last() == m@[i as int].0);
        }
        if l > w {
            w = l;
        }
        i = i + 1;
    }
    assert(keys.take(n as int) =~= keys);
    w
}

/// A name left-aligned in a field of `width` characters.
fn pad_name(name: &str, width: usize) -> (r: String)
    ensures
        r@ == padded(name@, width as int),
{
    let n = name.unicode_len();
    let mut s = copy_text(name);
    if n < width {
        let mut k: usize = n;
        while k < width
            invariant
                n == name@.len(),
                n <= k <= width,
                s@ == name@ + spaces(k - n),
            decreases width - k,
        {
            s = s.concat(" ");
            proof {
                reveal_strlit(" ");
            }
            k = k + 1;
            assert(s@ =~= name@ + spaces(k - n));
        }
    }
    s
}

/// The names of `list` separated by `sep`.
pub fn join_names(list: &[String], sep: &str) -> (r: String)
    ensures
        r@ == joined(list.deep_view(), sep@),
{
    let mut s = String::new();
    let mut i: usize = 0;
    while i < list.len()
        invariant
            i <= list@.len(),
            s@ == joined(list.deep_view().take(i as int), sep@),
        decreases list@.len() - i,
    {
        let ghost prev = list.deep_view().take(i as int);
        let ghost next = list.deep_view().take(i + 1);
        proof {
            assert(next.drop_last() =~= prev);
            assert(next.last() == list@[i as int]@);
        }
        if i == 0 {
            assert(next =~= seq![list@[0]@]);
            s = copy_text(list[i].as_str());
        } else {
            s = s.concat(sep);
            s = s.concat(list[i].as_str());
        }
        i = i + 1;
    }
    assert(list.deep_view().take(list@.len() as int) =~= list.deep_view());
    s
}

/// The line for one url.
fn url_line_text(name: &str, entry: &crate::entry::UrlEntry, width: usize) -> (r: String)
    ensures
        r@ == url_line(name@, entry.deep_view(), width as int),
{
    let head = join2(
        join2(join2("• ", pad_name(name, width).as_str()).as_str(), " | ").as_str(),
        entry.url(),
    );
    let aliases = entry.aliases();
    if aliases.len() == 0 {
        head
    } else {
        join2(
            join2(join2(head.as_str(), " (aliases: ").as_str(), join_names(aliases, ", ").as_str()).as_str(),
            ")",
        )
    }
}

/// The line for one group.
fn group_line_text(name: &str, entries: &Vec<String>, width: usize) -> (r: String)
    ensures
        r@ == group_line(name@, entries.deep_view(), width as int),
{
    let list = entries.as_slice();
    assert(list.deep_view() =~= entries.deep_view());
    join2(
        join2(
            join2(join2("• ", pad_name(name, width).as_str()).as_str(), " | [").as_str(),
            join_names(list, ", ").as_str(),
        ).as_str(),
        "]",
    )
}

impl Config {
    /// The url section of the listing.
    fn url_section_lines(&self) -> (r: Vec<String>)
        requires
            self.wf(),
        ensures
            r.deep_view() == url_section(self@.urls),
    {
        let mut lines: Vec<String> = Vec::new();
        let ghost urls = self@.urls;
        if self.urls.is_empty() {
            assert(lines.deep_view() =~= url_section(urls));
            return lines;
        }
        let order = sorted_positions(&self.urls);
        let width = widest_key(&self.urls);
        let ghost o = name_order(keys_of(urls), urls.len());
        lines.push(copy_text("urls:"));
        lines.push(String::new());
        let mut k: usize = 0;
        while k < order.len()
            invariant
                self.wf(),
                urls == self@.urls,
                o == name_order(keys_of(urls), urls.len()),
                order@.map_values(|x: usize| x as int) == o,
                order@.len() == urls.len(),
                forall|j: int| 0 <= j < order@.len() ==> #[trigger] order@[j] < urls.len(),
                width == max_width(keys_of(urls)),
                k <= order@.len(),
                lines@.len() == k + 2,
                lines@[0]@ == "urls:"@,
                lines@[1]@ == Seq::<char>::empty(),
                forall|j: int|
                    2 <= j < k + 2 ==> (#[trigger] lines@[j])@ == url_line(
                        urls[o[j - 2]].0,
                        urls[o[j - 2]].1,
                        width as int,
                    ),
            decreases order@.len() - k,
        {
            assert(o[k as int] == order@[k as int] as int);
            let pos = order[k];
            let line = url_line_text(self.urls.key_at(pos).as_str(), self.urls.value_at(pos), width);
            lines.push(line);
            k = k + 1;
        }
        lines.push(String::new());
        assert(lines.deep_view() =~= url_section(urls));
        lines
    }

    /// The group section of the listing.
    fn group_section_lines(&self) -> (r: Vec<String>)
        requires
            self.wf(),
        ensures
            r.deep_view() == group_section(self@.groups),
    {
        let mut lines: Vec<String> = Vec::new();
        let ghost groups = self@.groups;
        if self.groups.is_empty() {
            assert(lines.deep_view() =~= group_section(groups));
            return lines;
        }
        let order = sorted_positions(&self.groups);
        let width = widest_key(&self.groups);
        let ghost o = name_order(keys_of(groups), groups.len());
        lines.push(copy_text("groups:"));
        lines.push(String::new());
        let mut k: usize = 0;
        while k < order.len()
            invariant
                self.wf(),
                groups == self@.groups,
                o == name_order(keys_of(groups), groups.len()),
                order@.map_values(|x: usize| x as int) == o,
                order@.len() == groups.len(),
                forall|j: int| 0 <= j < order@.len() ==> #[trigger] order@[j] < groups.len(),
                width == max_width(keys_of(groups)),
                k <= order@.len(),
                lines@.len() == k + 2,
                lines@[0]@ == "groups:"@,
                lines@[1]@ == Seq::<char>::empty(),
                forall|j: int|
                    2 <= j < k + 2 ==> (#[trigger] lines@[j])@ == group_line(
                        groups[o[j - 2]].0,
                        groups[o[j - 2]].1,
                        width as int,
                    ),
            decreases order@.len() - k,
        {
            assert(o[k as int] == order@[k as int] as int);
            let pos = order[k];
            let line = group_line_text(
                self.groups.key_at(pos).as_str(),
                self.groups.value_at(pos),
                width,
            );
            lines.push(line);
            k = k + 1;
        }
        lines.push(String::new());
        assert(lines.deep_view() =~= group_section(groups));
        lines
    }

    /// The listing of the configuration, line by line: the urls, then the
    /// groups, each sorted by name.
    pub fn listing(&self) -> (r: Vec<String>)
        requires
            self.wf(),
        ensures
            r.deep_view() == listing(self@),
    {
        let mut lines = self.url_section_lines();
        let mut more = self.group_section_lines();
        let ghost a = lines.deep_view();
        let ghost b = more.deep_view();
        lines.append(&mut more);
        assert(lines.deep_view() =~= a + b);
        lines
    }
}

} // verus!
