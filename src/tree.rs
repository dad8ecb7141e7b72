use vstd::prelude::*;
use crate::cli::same_text;

verus! {

/// An entry of a directory listing. `key` is the entry's raw file name, by
/// which entries are ordered and hidden ones told apart; `name` is that name
/// as text, as it is printed. `children` is `Some` for a directory (holding
/// its own listing, empty where it could not be read) and `None` for anything
/// that is not a directory or whose type could not be told.
pub struct Node {
    pub name: String,
    pub key: Vec<u8>,
    pub children: Option<Vec<Node>>,
}

/// Whether a raw file name marks a hidden entry: it begins with a dot.
pub open spec fn is_hidden(key: Seq<u8>) -> bool {
    key.len() > 0 && key[0] == 46u8
}

/// Strict lexicographic order on byte strings; a proper prefix comes first.
pub open spec fn bytes_lt(a: Seq<u8>, b: Seq<u8>) -> bool
    decreases a.len(),
{
    if b.len() == 0 {
        false
    } else if a.len() == 0 {
        true
    } else if a[0] != b[0] {
        a[0] < b[0]
    } else {
        bytes_lt(a.drop_first(), b.drop_first())
    }
}

/// Raw file names are ordered byte by byte.
pub open spec fn name_lt(a: Seq<u8>, b: Seq<u8>) -> bool {
    bytes_lt(a, b)
}

/// The raw file names of a listing's entries.
pub open spec fn names_of(nodes: Seq<Node>) -> Seq<Seq<u8>> {
    nodes.map_values(|n: Node| n.key@)
}

/// Positions of the entries that are listed, in listing order.
pub open spec fn visible_indices(names: Seq<Seq<u8>>, show_hidden: bool) -> Seq<int>
    decreases names.len(),
{
    if names.len() == 0 {
        seq![]
    } else {
        let rest = visible_indices(names.drop_last(), show_hidden);
        if show_hidden || !is_hidden(names.last()) {
            rest.push(names.len() - 1)
        } else {
            rest
        }
    }
}

/// Puts position `k` into the name-ordered `s`, after every entry whose name
/// is not greater than its own.
pub open spec fn insert_by_name(names: Seq<Seq<u8>>, s: Seq<int>, k: int) -> Seq<int>
    decreases s.len(),
{
    if s.len() == 0 {
        seq![k]
    } else if name_lt(names[k], names[s[0]]) {
        seq![k] + s
    } else {
        seq![s[0]] + insert_by_name(names, s.drop_first(), k)
    }
}

/// The positions `idx` ordered by name; entries of equal name keep their order.
pub open spec fn sort_by_name(names: Seq<Seq<u8>>, idx: Seq<int>) -> Seq<int>
    decreases idx.len(),
{
    if idx.len() == 0 {
        seq![]
    } else {
        insert_by_name(names, sort_by_name(names, idx.drop_last()), idx.last())
    }
}

/// The positions of the entries printed for one directory, in printing order.
pub open spec fn listing_order(names: Seq<Seq<u8>>, show_hidden: bool, sort: bool) -> Seq<int> {
    let v = visible_indices(names, show_hidden);
    if sort {
        sort_by_name(names, v)
    } else {
        v
    }
}

/// Positions as mathematical integers.
pub open spec fn as_ints(v: Seq<usize>) -> Seq<int> {
    v.map_values(|k: usize| k as int)
}

/// The connector drawn before an entry's name.
pub open spec fn connector(is_last: bool) -> Seq<char> {
    if is_last {
        seq!['└', '─', '─']
    } else {
        seq!['├', '─', '─']
    }
}

/// What a directory adds to the prefix of the lines below it.
pub open spec fn indent_unit(is_last: bool) -> Seq<char> {
    if is_last {
        seq![' ', ' ', ' ', ' ']
    } else {
        seq!['│', ' ', ' ', ' ']
    }
}

/// The line printed for one entry.
pub open spec fn entry_line(prefix: Seq<char>, is_last: bool, name: Seq<char>) -> Seq<char> {
    prefix + connector(is_last) + seq![' '] + name
}

/// The lines printed for a directory whose listing is `nodes`, below lines
/// that carry `prefix`.
pub open spec fn render(nodes: Seq<Node>, prefix: Seq<char>, sort: bool, show_hidden: bool) -> Seq<
    Seq<char>,
>
    decreases nodes, 1int, 0int,
{
    render_from(nodes, listing_order(names_of(nodes), show_hidden, sort), 0, prefix, sort, show_hidden)
}

/// The lines for the entries at positions `order[i..]` and what lies below them.
pub open spec fn render_from(
    nodes: Seq<Node>,
    order: Seq<int>,
    i: int,
    prefix: Seq<char>,
    sort: bool,
    show_hidden: bool,
) -> Seq<Seq<char>>
    decreases nodes, 0int, order.len() - i,
{
    if i < 0 || i >= order.len() || !(0 <= order[i] < nodes.len()) {
        seq![]
    } else {
        let node = nodes[order[i]];
        let last = i == order.len() - 1;
        let below = match node.children {
            Some(c) => render(c@, prefix + indent_unit(last), sort, show_hidden),
            None => seq![],
        };
        seq![entry_line(prefix, last, node.name@)] + below + render_from(
            nodes,
            order,
            i + 1,
            prefix,
            sort,
            show_hidden,
        )
    }
}

/// The text of each output line.
pub open spec fn lines_of(v: Seq<String>) -> Seq<Seq<char>> {
    v.map_values(|s: String| s@)
}

/// Decides whether an entry with the raw file name `key` is listed.
pub fn is_visible(key: &[u8], show_hidden: bool) -> (r: bool)
    ensures
        r == (show_hidden || !is_hidden(key@)),
{
    show_hidden || key.len() == 0 || key[0] != 46u8
}

/// Compares two raw file names byte by byte.
pub fn name_less(x: &[u8], y: &[u8]) -> (r: bool)
    ensures
        r == name_lt(x@, y@),
{
    let mut i: usize = 0;
    assert(x@.skip(0) =~= x@ && y@.skip(0) =~= y@);
    while i < x.len() && i < y.len() && x[i] == y[i]
        invariant
            i <= x@.len(),
            i <= y@.len(),
            bytes_lt(x@, y@) == bytes_lt(x@.skip(i as int), y@.skip(i as int)),
        decreases x@.len() - i,
    {
        assert(x@.skip(i as int).drop_first() =~= x@.skip(i + 1));
        assert(y@.skip(i as int).drop_first() =~= y@.skip(i + 1));
        i = i + 1;
    }
    if i == y.len() {
        false
    } else if i == x.len() {
        true
    } else {
        x[i] < y[i]
    }
}

proof fn lemma_insert_at(names: Seq<Seq<u8>>, s: Seq<int>, k: int, j: int)
    requires
        0 <= j <= s.len(),
        forall|t: int| 0 <= t < j ==> !name_lt(names[k], #[trigger] names[s[t]]),
        j == s.len() || name_lt(names[k], names[s[j]]),
    ensures
        insert_by_name(names, s, k) == s.insert(j, k),
    decreases j,
{
    if j == 0 {
        assert(s.insert(0, k) =~= seq![k] + s);
    } else {
        let r = s.drop_first();
        assert forall|t: int| 0 <= t < j - 1 implies !name_lt(names[k], #[trigger] names[r[t]]) by {
            assert(r[t] == s[t + 1]);
        }
        lemma_insert_at(names, r, k, j - 1);
        assert(s.insert(j, k) =~= seq![s[0]] + r.insert(j - 1, k));
    }
}

/// The positions of the entries to print for one directory, in order.
pub fn listing_positions(nodes: &Vec<Node>, show_hidden: bool, sort: bool) -> (r: Vec<usize>)
    ensures
        as_ints(r@) == listing_order(names_of(nodes@), show_hidden, sort),
        forall|u: int| 0 <= u < r@.len() ==> r@[u] < nodes@.len(),
{
    let ghost names = names_of(nodes@);
    let mut vis: Vec<usize> = Vec::new();
    let mut i: usize = 0;
    while i < nodes.len()
        invariant
            i <= nodes@.len(),
            names == names_of(nodes@),
            as_ints(vis@) == visible_indices(names.take(i as int), show_hidden),
            forall|t: int| 0 <= t < vis@.len() ==> vis@[t] < i,
        decreases nodes@.len() - i,
    {
        assert(names.take(i + 1).drop_last() =~= names.take(i as int));
        if is_visible(nodes[i].key.as_slice(), show_hidden) {
            vis.push(i);
            assert(as_ints(vis@) =~= visible_indices(names.take(i + 1), show_hidden));
        } else {
            assert(as_ints(vis@) =~= visible_indices(names.take(i + 1), show_hidden));
        }
        i = i + 1;
    }
    assert(names.take(nodes@.len() as int) =~= names);
    if !sort {
        return vis;
    }
    let ghost v = as_ints(vis@);
    let mut out: Vec<usize> = Vec::new();
    let mut t: usize = 0;
    while t < vis.len()
        invariant
            t <= vis@.len(),
            v == as_ints(vis@),
            names == names_of(nodes@),
            forall|u: int| 0 <= u < vis@.len() ==> vis@[u] < nodes@.len(),
            forall|u: int| 0 <= u < out@.len() ==> out@[u] < nodes@.len(),
            as_ints(out@) == sort_by_name(names, v.take(t as int)),
        decreases vis@.len() - t,
    {
        let k = vis[t];
        let mut j: usize = 0;
        while j < out.len() && !name_less(nodes[k].key.as_slice(), nodes[out[j]].key.as_slice())
            invariant
                j <= out@.len(),
                k < nodes@.len(),
                names == names_of(nodes@),
                forall|u: int| 0 <= u < out@.len() ==> out@[u] < nodes@.len(),
                forall|u: int| 0 <= u < j ==> !name_lt(names[k as int], #[trigger] names[as_ints(out@)[u]]),
            decreases out@.len() - j,
        {
            j = j + 1;
        }
        proof {
            lemma_insert_at(names, as_ints(out@), k as int, j as int);
            assert(v.take(t + 1).drop_last() =~= v.take(t as int));
        }
        let ghost before = out@;
        out.insert(j, k);
        assert(as_ints(out@) =~= as_ints(before).insert(j as int, k as int));
        assert(v.take(t + 1).last() == k as int);
        t = t + 1;
    }
    assert(v.take(vis@.len() as int) =~= v);
    out
}

/// Builds the line printed for one entry: the prefix, the connector, a space
/// and the name.
pub fn format_entry(prefix: &str, is_last: bool, name: &str) -> (r: String)
    ensures
        r@ == entry_line(prefix@, is_last, name@),
{
    let mut s = String::new();
    s.append(prefix);
    if is_last {
        proof {
            reveal_strlit("└──");
        }
        assert("└──"@ =~= connector(true));
        s.append("└──");
    } else {
        proof {
            reveal_strlit("├──");
        }
        assert("├──"@ =~= connector(false));
        s.append("├──");
    }
    proof {
        reveal_strlit(" ");
    }
    s.append(" ");
    s.append(name);
    s
}

/// Extends the prefix on entering a directory: four spaces below the last
/// entry, a vertical bar and three spaces below any other.
pub fn push_indent(prefix: &mut String, is_last: bool)
    ensures
        final(prefix)@ == old(prefix)@ + indent_unit(is_last),
{
    if is_last {
        proof {
            reveal_strlit("    ");
        }
        assert("    "@ =~= indent_unit(true));
        prefix.append("    ");
    } else {
        proof {
            reveal_strlit("│   ");
        }
        assert("│   "@ =~= indent_unit(false));
        prefix.append("│   ");
    }
}

/// Appends to `out` the lines for a directory whose listing is `nodes`, depth
/// first, each line led by `prefix`; `prefix` is the same on return.
pub fn print_dir_structure(
    nodes: &Vec<Node>,
    prefix: &mut String,
    sort: bool,
    show_hidden: bool,
    out: &mut Vec<String>,
)
    ensures
        final(prefix)@ == old(prefix)@,
        lines_of(final(out)@) == lines_of(old(out)@) + render(nodes@, old(prefix)@, sort, show_hidden),
    decreases nodes@,
{
    let ghost p0 = prefix@;
    let ghost out0 = lines_of(out@);
    let order = listing_positions(nodes, show_hidden, sort);
    let ghost ord = as_ints(order@);
    let n = order.len();
    let mut i: usize = 0;
    while i < n
        invariant
            n == order@.len(),
            ord == as_ints(order@),
            ord == listing_order(names_of(nodes@), show_hidden, sort),
            forall|u: int| 0 <= u < order@.len() ==> order@[u] < nodes@.len(),
            i <= n,
            prefix@ == p0,
            out0 + render(nodes@, p0, sort, show_hidden) == lines_of(out@) + render_from(
                nodes@,
                ord,
                i as int,
                p0,
                sort,
                show_hidden,
            ),
        decreases n - i,
    {
        let k = order[i];
        let is_last = i == n - 1;
        let node = &nodes[k];
        let line = format_entry(prefix.as_str(), is_last, node.name.as_str());
        let ghost before = lines_of(out@);
        out.push(line);
        assert(lines_of(out@) =~= before.push(entry_line(p0, is_last, node.name@)));
        let ghost mid = lines_of(out@);
        match &node.children {
            Some(c) => {
                let saved = prefix.clone();
                push_indent(prefix, is_last);
                print_dir_structure(c, prefix, sort, show_hidden, out);
                *prefix = saved;
            },
            None => {},
        }
        let ghost below = if node.children is Some {
            render(node.children->0@, p0 + indent_unit(is_last), sort, show_hidden)
        } else {
            seq![]
        };
        assert(lines_of(out@) == mid + below);
        assert(render_from(nodes@, ord, i as int, p0, sort, show_hidden) =~= seq![
            entry_line(p0, is_last, node.name@),
        ] + below + render_from(nodes@, ord, i + 1, p0, sort, show_hidden));
        assert(lines_of(out@) + render_from(nodes@, ord, i + 1, p0, sort, show_hidden) =~= before
            + render_from(nodes@, ord, i as int, p0, sort, show_hidden));
        i = i + 1;
    }
    assert(render_from(nodes@, ord, n as int, p0, sort, show_hidden) =~= seq![]);
    assert(lines_of(out@) =~= out0 + render(nodes@, p0, sort, show_hidden));
}

/// The first line of the output: `.` where the target is written `.`, else
/// its canonical form, or the target as written where that could not be had.
pub open spec fn root_line_spec(path: Seq<char>, canonical: Option<Seq<char>>) -> Seq<char> {
    if path == seq!['.'] {
        seq!['.']
    } else {
        match canonical {
            Some(c) => c,
            None => path,
        }
    }
}

/// Chooses the first line of the output from the target as written and the
/// canonical form the file system gave for it, if any.
pub fn root_line(path: &str, canonical: Option<String>) -> (r: String)
    ensures
        r@ == root_line_spec(
            path@,
            match canonical {
                Some(c) => Some(c@),
                None => None,
            },
        ),
{
    proof {
        reveal_strlit(".");
    }
    assert("."@ =~= seq!['.']);
    let is_dot = same_text(path, ".");
    if is_dot {
        String::from_str(".")
    } else {
        match canonical {
            Some(c) => c,
            None => String::from_str(path),
        }
    }
}

/// The whole output for a target: its root line, then the lines for its
/// listing `nodes`.
pub fn render_tree(
    path: &str,
    canonical: Option<String>,
    nodes: &Vec<Node>,
    sort: bool,
    show_hidden: bool,
) -> (r: Vec<String>)
    ensures
        lines_of(r@) == seq![
            root_line_spec(
                path@,
                match canonical {
                    Some(c) => Some(c@),
                    None => None,
                },
            ),
        ] + render(nodes@, Seq::empty(), sort, show_hidden),
{
    let mut out: Vec<String> = Vec::new();
    out.push(root_line(path, canonical));
    let mut prefix = String::new();
    print_dir_structure(nodes, &mut prefix, sort, show_hidden, &mut out);
    out
}

} // verus!
