use vstd::prelude::*;

use crate::cli::{current_dir, flag_help, flag_hidden, flag_unsorted, parse_spec, scan_args};
use crate::tree::{
    bytes_lt, connector, entry_line, indent_unit, insert_by_name, is_hidden, listing_order, name_lt,
    names_of, render, render_from, root_line_spec, sort_by_name, visible_indices, Node,
};

verus! {

broadcast use vstd::seq_lib::group_to_multiset_ensures, vstd::multiset::group_multiset_axioms;

/// No two byte strings are each below the other.
pub proof fn lemma_bytes_lt_asymmetric(a: Seq<u8>, b: Seq<u8>)
    ensures
        bytes_lt(a, b) ==> !bytes_lt(b, a),
    decreases a.len(),
{
    if a.len() > 0 && b.len() > 0 && a[0] == b[0] {
        lemma_bytes_lt_asymmetric(a.drop_first(), b.drop_first());
    }
}

/// Of two different byte strings one is below the other.
pub proof fn lemma_bytes_lt_total(a: Seq<u8>, b: Seq<u8>)
    ensures
        a != b ==> bytes_lt(a, b) || bytes_lt(b, a),
    decreases a.len(),
{
    if a.len() == 0 || b.len() == 0 {
        if a.len() == 0 && b.len() == 0 {
            assert(a =~= b);
        }
    } else if a[0] == b[0] {
        lemma_bytes_lt_total(a.drop_first(), b.drop_first());
        if a.drop_first() == b.drop_first() {
            assert(a =~= seq![a[0]] + a.drop_first());
            assert(b =~= seq![b[0]] + b.drop_first());
        }
    }
}

/// Byte order is transitive.
pub proof fn lemma_bytes_lt_transitive(a: Seq<u8>, b: Seq<u8>, c: Seq<u8>)
    ensures
        bytes_lt(a, b) && bytes_lt(b, c) ==> bytes_lt(a, c),
    decreases a.len(),
{
    if a.len() > 0 && b.len() > 0 && c.len() > 0 && a[0] == b[0] && b[0] == c[0] {
        lemma_bytes_lt_transitive(a.drop_first(), b.drop_first(), c.drop_first());
    }
}

/// No two names are each below the other.
pub proof fn lemma_name_lt_asymmetric(a: Seq<u8>, b: Seq<u8>)
    ensures
        name_lt(a, b) ==> !name_lt(b, a),
{
    lemma_bytes_lt_asymmetric(a, b);
}

/// Of two different names one is below the other.
pub proof fn lemma_name_lt_total(a: Seq<u8>, b: Seq<u8>)
    ensures
        a != b ==> name_lt(a, b) || name_lt(b, a),
{
    lemma_bytes_lt_total(a, b);
}

/// Names at the positions `s` do not go down from one to the next.
pub open spec fn ordered_by_name(names: Seq<Seq<u8>>, s: Seq<int>) -> bool {
    forall|i: int| 0 <= i < s.len() - 1 ==> !name_lt(names[s[i + 1]], #[trigger] names[s[i]])
}

proof fn lemma_insert_keeps_items(names: Seq<Seq<u8>>, s: Seq<int>, k: int)
    ensures
        insert_by_name(names, s, k).to_multiset() == s.to_multiset().insert(k),
    decreases s.len(),
{
    if s.len() == 0 {
        assert(seq![k] =~= Seq::<int>::empty().push(k));
    } else if name_lt(names[k], names[s[0]]) {
        vstd::seq_lib::lemma_multiset_commutative(seq![k], s);
        assert(seq![k] =~= Seq::<int>::empty().push(k));
    } else {
        lemma_insert_keeps_items(names, s.drop_first(), k);
        vstd::seq_lib::lemma_multiset_commutative(
            seq![s[0]],
            insert_by_name(names, s.drop_first(), k),
        );
        vstd::seq_lib::lemma_multiset_commutative(seq![s[0]], s.drop_first());
        assert(seq![s[0]] + s.drop_first() =~= s);
        assert(seq![s[0]] =~= Seq::<int>::empty().push(s[0]));
    }
}

proof fn lemma_sort_keeps_items(names: Seq<Seq<u8>>, idx: Seq<int>)
    ensures
        sort_by_name(names, idx).to_multiset() == idx.to_multiset(),
    decreases idx.len(),
{
    if idx.len() > 0 {
        lemma_sort_keeps_items(names, idx.drop_last());
        lemma_insert_keeps_items(names, sort_by_name(names, idx.drop_last()), idx.last());
        assert(idx.drop_last().push(idx.last()) =~= idx);
    }
}

proof fn lemma_insert_ordered(names: Seq<Seq<u8>>, s: Seq<int>, k: int)
    requires
        ordered_by_name(names, s),
    ensures
        ordered_by_name(names, insert_by_name(names, s, k)),
        insert_by_name(names, s, k).len() == s.len() + 1,
        insert_by_name(names, s, k)[0] == k || (s.len() > 0 && insert_by_name(names, s, k)[0]
            == s[0]),
    decreases s.len(),
{
    if s.len() == 0 {
    } else if name_lt(names[k], names[s[0]]) {
        lemma_name_lt_asymmetric(names[k], names[s[0]]);
        let r = seq![k] + s;
        assert forall|i: int| 0 <= i < r.len() - 1 implies !name_lt(
            names[r[i + 1]],
            #[trigger] names[r[i]],
        ) by {
            if i > 0 {
                assert(r[i] == s[i - 1] && r[i + 1] == s[i]);
            }
        }
    } else {
        let t = s.drop_first();
        assert(ordered_by_name(names, t)) by {
            assert forall|i: int| 0 <= i < t.len() - 1 implies !name_lt(
                names[t[i + 1]],
                #[trigger] names[t[i]],
            ) by {
                assert(t[i] == s[i + 1] && t[i + 1] == s[i + 2]);
            }
        }
        lemma_insert_ordered(names, t, k);
        let it = insert_by_name(names, t, k);
        let r = seq![s[0]] + it;
        assert forall|i: int| 0 <= i < r.len() - 1 implies !name_lt(
            names[r[i + 1]],
            #[trigger] names[r[i]],
        ) by {
            if i == 0 {
                if it[0] != k {
                    assert(names[s[1]] == names[t[0]]);
                }
            } else {
                assert(r[i] == it[i - 1] && r[i + 1] == it[i]);
            }
        }
    }
}

proof fn lemma_sort_ordered(names: Seq<Seq<u8>>, idx: Seq<int>)
    ensures
        ordered_by_name(names, sort_by_name(names, idx)),
        sort_by_name(names, idx).len() == idx.len(),
    decreases idx.len(),
{
    if idx.len() > 0 {
        lemma_sort_ordered(names, idx.drop_last());
        lemma_insert_ordered(names, sort_by_name(names, idx.drop_last()), idx.last());
    }
}

/// What `visible_indices` holds: each listed position once, in increasing order.
proof fn lemma_visible_indices(names: Seq<Seq<u8>>, show_hidden: bool)
    ensures
        forall|i: int, j: int|
            0 <= i < j < visible_indices(names, show_hidden).len() ==> visible_indices(
                names,
                show_hidden,
            )[i] < visible_indices(names, show_hidden)[j],
        forall|k: int|
            visible_indices(names, show_hidden).contains(k) <==> (0 <= k < names.len() && (
            show_hidden || !is_hidden(names[k]))),
        visible_indices(names, show_hidden).len() == names.filter(
            |n: Seq<u8>| show_hidden || !is_hidden(n),
        ).len(),
    decreases names.len(),
{
    reveal(Seq::filter);
    if names.len() > 0 {
        let d = names.drop_last();
        lemma_visible_indices(d, show_hidden);
        let rest = visible_indices(d, show_hidden);
        let v = visible_indices(names, show_hidden);
        assert forall|k: int| v.contains(k) <==> (0 <= k < names.len() && (show_hidden
            || !is_hidden(names[k]))) by {
            if 0 <= k < d.len() {
                assert(d[k] == names[k]);
            }
            if v.contains(k) && k != names.len() - 1 {
                let w = choose|w: int| 0 <= w < v.len() && v[w] == k;
                assert(rest[w] == k);
            }
            if rest.contains(k) {
                let w = choose|w: int| 0 <= w < rest.len() && rest[w] == k;
                assert(v[w] == k);
            }
            if k == names.len() - 1 && (show_hidden || !is_hidden(names[k])) {
                assert(v[v.len() - 1] == k);
            }
        }
        assert forall|i: int, j: int| 0 <= i < j < v.len() implies v[i] < v[j] by {
            if j == rest.len() {
                assert(rest.contains(v[i]));
            }
        }
    }
}

proof fn lemma_insert_no_duplicates(names: Seq<Seq<u8>>, s: Seq<int>, k: int)
    requires
        s.no_duplicates(),
        !s.contains(k),
    ensures
        insert_by_name(names, s, k).no_duplicates(),
    decreases s.len(),
{
    if s.len() > 0 && !name_lt(names[k], names[s[0]]) {
        let t = s.drop_first();
        assert(!t.contains(k)) by {
            if t.contains(k) {
                let w = choose|w: int| 0 <= w < t.len() && t[w] == k;
                assert(s[w + 1] == k);
            }
        }
        lemma_insert_no_duplicates(names, t, k);
        lemma_insert_keeps_items(names, t, k);
        let it = insert_by_name(names, t, k);
        assert(!it.contains(s[0])) by {
            if t.contains(s[0]) {
                let w = choose|w: int| 0 <= w < t.len() && t[w] == s[0];
                assert(s[w + 1] == s[0]);
            }
            assert(it.to_multiset().count(s[0]) == t.to_multiset().insert(k).count(s[0]));
        }
        let r = seq![s[0]] + it;
        assert forall|i: int, j: int| 0 <= i < r.len() && 0 <= j < r.len() && i != j implies r[i]
            != r[j] by {
            if i == 0 {
                assert(r[j] == it[j - 1]);
            } else if j == 0 {
                assert(r[i] == it[i - 1]);
            } else {
                assert(r[i] == it[i - 1] && r[j] == it[j - 1]);
            }
        }
    }
}

proof fn lemma_sort_no_duplicates(names: Seq<Seq<u8>>, idx: Seq<int>)
    requires
        idx.no_duplicates(),
    ensures
        sort_by_name(names, idx).no_duplicates(),
    decreases idx.len(),
{
    if idx.len() > 0 {
        let d = idx.drop_last();
        lemma_sort_no_duplicates(names, d);
        lemma_sort_keeps_items(names, d);
        assert(!d.contains(idx.last())) by {
            if d.contains(idx.last()) {
                let w = choose|w: int| 0 <= w < d.len() && d[w] == idx.last();
                assert(idx[w] == idx[idx.len() - 1]);
            }
        }
        assert(sort_by_name(names, d).to_multiset().count(idx.last()) == d.to_multiset().count(
            idx.last(),
        ));
        lemma_insert_no_duplicates(names, sort_by_name(names, d), idx.last());
    }
}

/// Hidden entries: with `show_hidden` off, no entry whose name starts with a
/// dot is printed for a directory, and every other entry is; with it on, every
/// entry is. Each entry is printed once, and as many entries are printed as
/// there are entries to show.
pub proof fn law_hidden_entries(names: Seq<Seq<u8>>, show_hidden: bool, sort: bool)
    ensures
        forall|k: int|
            listing_order(names, show_hidden, sort).contains(k) <==> (0 <= k < names.len() && (
            show_hidden || !is_hidden(names[k]))),
        listing_order(names, show_hidden, sort).no_duplicates(),
        listing_order(names, show_hidden, sort).len() == names.filter(
            |n: Seq<u8>| show_hidden || !is_hidden(n),
        ).len(),
{
    lemma_visible_indices(names, show_hidden);
    let v = visible_indices(names, show_hidden);
    if sort {
        lemma_sort_keeps_items(names, v);
        lemma_sort_ordered(names, v);
        lemma_sort_no_duplicates(names, v);
        let o = sort_by_name(names, v);
        assert forall|k: int| o.contains(k) <==> v.contains(k) by {
            assert(o.to_multiset().count(k) == v.to_multiset().count(k));
        }
    }
}

/// Sibling order: with sorting on, the names of the entries printed for a
/// directory go up strictly in byte order (the names of one listing being
/// distinct); with it off, the entries come in the listing's own order.
pub proof fn law_sibling_order(names: Seq<Seq<u8>>, show_hidden: bool)
    requires
        forall|i: int, j: int| 0 <= i < j < names.len() ==> names[i] != names[j],
    ensures
        forall|i: int|
            0 <= i < listing_order(names, show_hidden, true).len() - 1 ==> name_lt(
                #[trigger] names[listing_order(names, show_hidden, true)[i]],
                names[listing_order(names, show_hidden, true)[i + 1]],
            ),
        listing_order(names, show_hidden, false) == visible_indices(names, show_hidden),
        forall|i: int, j: int|
            0 <= i < j < listing_order(names, show_hidden, false).len() ==> listing_order(
                names,
                show_hidden,
                false,
            )[i] < listing_order(names, show_hidden, false)[j],
{
    lemma_visible_indices(names, show_hidden);
    law_hidden_entries(names, show_hidden, true);
    lemma_sort_ordered(names, visible_indices(names, show_hidden));
    let o = listing_order(names, show_hidden, true);
    assert forall|i: int| 0 <= i < o.len() - 1 implies name_lt(#[trigger] names[o[i]], names[o[i + 1]]) by {
        assert(o.contains(o[i]) && o.contains(o[i + 1]));
        assert(o[i] != o[i + 1]);
        assert(!name_lt(names[o[i + 1]], names[o[i]]));
        lemma_name_lt_total(names[o[i]], names[o[i + 1]]);
    }
}

/// Sibling order, whole: with sorting on (the names of one listing being
/// distinct), of any two entries printed for a directory the earlier has the
/// smaller name, so the last one printed, the one drawn with `└──`, has the
/// greatest name of all those shown.
pub proof fn law_last_is_greatest(names: Seq<Seq<u8>>, show_hidden: bool)
    requires
        forall|i: int, j: int| 0 <= i < j < names.len() ==> names[i] != names[j],
    ensures
        forall|i: int, j: int|
            0 <= i < j < listing_order(names, show_hidden, true).len() ==> name_lt(
                #[trigger] names[listing_order(names, show_hidden, true)[i]],
                #[trigger] names[listing_order(names, show_hidden, true)[j]],
            ),
        forall|i: int|
            0 <= i < listing_order(names, show_hidden, true).len() - 1 ==> name_lt(
                #[trigger] names[listing_order(names, show_hidden, true)[i]],
                names[listing_order(names, show_hidden, true).last()],
            ),
{
    law_sibling_order(names, show_hidden);
    let o = listing_order(names, show_hidden, true);
    assert forall|i: int, j: int| 0 <= i < j < o.len() implies name_lt(
        #[trigger] names[o[i]],
        #[trigger] names[o[j]],
    ) by {
        lemma_ordered_span(names, o, i, j);
    }
    assert forall|i: int| 0 <= i < o.len() - 1 implies name_lt(
        #[trigger] names[o[i]],
        names[o.last()],
    ) by {
        lemma_ordered_span(names, o, i, o.len() - 1);
    }
}

proof fn lemma_ordered_span(names: Seq<Seq<u8>>, o: Seq<int>, i: int, j: int)
    requires
        0 <= i < j < o.len(),
        forall|t: int| 0 <= t < o.len() - 1 ==> name_lt(#[trigger] names[o[t]], names[o[t + 1]]),
    ensures
        name_lt(names[o[i]], names[o[j]]),
    decreases j - i,
{
    if j > i + 1 {
        lemma_ordered_span(names, o, i, j - 1);
        assert(name_lt(names[o[j - 1]], names[o[j]]));
        lemma_bytes_lt_transitive(names[o[i]], names[o[j - 1]], names[o[j]]);
    }
}

/// The lines below an entry: those of its own listing where it is a directory.
pub open spec fn subtree_lines(node: Node, prefix: Seq<char>, sort: bool, show_hidden: bool) -> Seq<
    Seq<char>,
> {
    match node.children {
        Some(c) => render(c@, prefix, sort, show_hidden),
        None => seq![],
    }
}

/// For each entry printed for a directory, in order: its line, then the lines
/// below it.
pub open spec fn entry_blocks(nodes: Seq<Node>, prefix: Seq<char>, sort: bool, show_hidden: bool) -> Seq<
    Seq<Seq<char>>,
> {
    let ord = listing_order(names_of(nodes), show_hidden, sort);
    Seq::new(
        ord.len(),
        |i: int|
            seq![entry_line(prefix, i == ord.len() - 1, nodes[ord[i]].name@)] + subtree_lines(
                nodes[ord[i]],
                prefix + indent_unit(i == ord.len() - 1),
                sort,
                show_hidden,
            ),
    )
}

proof fn lemma_render_from_blocks(
    nodes: Seq<Node>,
    i: int,
    prefix: Seq<char>,
    sort: bool,
    show_hidden: bool,
)
    requires
        0 <= i <= listing_order(names_of(nodes), show_hidden, sort).len(),
    ensures
        render_from(nodes, listing_order(names_of(nodes), show_hidden, sort), i, prefix, sort, show_hidden)
            == entry_blocks(nodes, prefix, sort, show_hidden).skip(i).flatten(),
    decreases listing_order(names_of(nodes), show_hidden, sort).len() - i,
{
    let ord = listing_order(names_of(nodes), show_hidden, sort);
    let b = entry_blocks(nodes, prefix, sort, show_hidden);
    if i == ord.len() {
        assert(b.skip(i) =~= Seq::<Seq<Seq<char>>>::empty());
    } else {
        law_hidden_entries(names_of(nodes), show_hidden, sort);
        assert(ord.contains(ord[i]));
        lemma_render_from_blocks(nodes, i + 1, prefix, sort, show_hidden);
        assert(b.skip(i).drop_first() =~= b.skip(i + 1));
        assert(b.skip(i).first() == b[i]);
    }
}

/// One line per printed entry: the lines for a directory are, entry by entry
/// in printing order, the entry's own line followed by the lines below it. As
/// many entries are printed as there are entries to show, and an entry's line
/// carries `└──` where it is the last of them and `├──` where it is not. The
/// lines below an entry carry the prefix extended by the unit that matches
/// that connector: four spaces below `└──`, a bar and three spaces below `├──`.
pub proof fn law_one_line_per_entry(
    nodes: Seq<Node>,
    prefix: Seq<char>,
    sort: bool,
    show_hidden: bool,
)
    ensures
        render(nodes, prefix, sort, show_hidden) == entry_blocks(
            nodes,
            prefix,
            sort,
            show_hidden,
        ).flatten(),
        entry_blocks(nodes, prefix, sort, show_hidden).len() == names_of(nodes).filter(
            |n: Seq<u8>| show_hidden || !is_hidden(n),
        ).len(),
        forall|i: int|
            0 <= i < entry_blocks(nodes, prefix, sort, show_hidden).len() ==> (#[trigger] entry_blocks(
                nodes,
                prefix,
                sort,
                show_hidden,
            )[i])[0] == prefix + connector(
                i == entry_blocks(nodes, prefix, sort, show_hidden).len() - 1,
            ) + seq![' '] + nodes[listing_order(names_of(nodes), show_hidden, sort)[i]].name@,
        forall|i: int|
            0 <= i < entry_blocks(nodes, prefix, sort, show_hidden).len() ==> (#[trigger] entry_blocks(
                nodes,
                prefix,
                sort,
                show_hidden,
            )[i]).skip(1) == subtree_lines(
                nodes[listing_order(names_of(nodes), show_hidden, sort)[i]],
                prefix + indent_unit(i == entry_blocks(nodes, prefix, sort, show_hidden).len() - 1),
                sort,
                show_hidden,
            ),
{
    law_hidden_entries(names_of(nodes), show_hidden, sort);
    let b = entry_blocks(nodes, prefix, sort, show_hidden);
    let ord = listing_order(names_of(nodes), show_hidden, sort);
    assert forall|i: int| 0 <= i < b.len() implies (#[trigger] b[i]).skip(1) == subtree_lines(
        nodes[ord[i]],
        prefix + indent_unit(i == b.len() - 1),
        sort,
        show_hidden,
    ) by {
        assert(b[i].skip(1) =~= subtree_lines(
            nodes[ord[i]],
            prefix + indent_unit(i == b.len() - 1),
            sort,
            show_hidden,
        ));
    }
    lemma_render_from_blocks(nodes, 0, prefix, sort, show_hidden);
    assert(entry_blocks(nodes, prefix, sort, show_hidden).skip(0) =~= entry_blocks(
        nodes,
        prefix,
        sort,
        show_hidden,
    ));
}

/// The prefix of a line whose ancestors below the root are last or not last
/// among their siblings as `pattern` says, outermost first.
pub open spec fn indent_of(pattern: Seq<bool>) -> Seq<char>
    decreases pattern.len(),
{
    if pattern.len() == 0 {
        seq![]
    } else {
        indent_of(pattern.drop_last()) + indent_unit(pattern.last())
    }
}

/// `line` is the line of an entry, shown under `show_hidden`, whose ancestors
/// begin with the pattern `pattern`.
pub open spec fn line_below(line: Seq<char>, pattern: Seq<bool>, show_hidden: bool) -> bool {
    exists|ancestors: Seq<bool>, is_last: bool, node: Node|
        #![trigger entry_line(indent_of(ancestors), is_last, node.name@)]
        ancestors.len() >= pattern.len() && ancestors.take(pattern.len() as int) == pattern && line
            == entry_line(indent_of(ancestors), is_last, node.name@) && (show_hidden || !is_hidden(
            node.key@,
        ))
}

/// Prefix length: a prefix for `D` levels of nesting is `4 * D` characters,
/// one unit of four per level, and going one level deeper adds one unit.
pub proof fn law_prefix_length(pattern: Seq<bool>, is_last: bool)
    ensures
        indent_of(pattern).len() == 4 * pattern.len(),
        indent_of(pattern.push(is_last)) == indent_of(pattern) + indent_unit(is_last),
    decreases pattern.len(),
{
    assert(pattern.push(is_last).drop_last() =~= pattern);
    if pattern.len() > 0 {
        law_prefix_length(pattern.drop_last(), pattern.last());
    }
}

proof fn lemma_line_below_shorter(line: Seq<char>, pattern: Seq<bool>, b: bool, show_hidden: bool)
    requires
        line_below(line, pattern.push(b), show_hidden),
    ensures
        line_below(line, pattern, show_hidden),
{
    let (a, l, n) = choose|ancestors: Seq<bool>, is_last: bool, node: Node|
        #![trigger entry_line(indent_of(ancestors), is_last, node.name@)]
        ancestors.len() >= pattern.push(b).len() && ancestors.take(pattern.push(b).len() as int)
            == pattern.push(b) && line == entry_line(indent_of(ancestors), is_last, node.name@) && (
        show_hidden || !is_hidden(node.key@));
    assert(a.take(pattern.len() as int) =~= pattern.push(b).take(pattern.len() as int));
    assert(pattern.push(b).take(pattern.len() as int) =~= pattern);
}

proof fn lemma_render_lines(nodes: Seq<Node>, pattern: Seq<bool>, sort: bool, show_hidden: bool)
    ensures
        forall|j: int|
            0 <= j < render(nodes, indent_of(pattern), sort, show_hidden).len() ==> line_below(
                #[trigger] render(nodes, indent_of(pattern), sort, show_hidden)[j],
                pattern,
                show_hidden,
            ),
    decreases nodes, 1int, 0int,
{
    assert(render(nodes, indent_of(pattern), sort, show_hidden) == render_from(
        nodes,
        listing_order(names_of(nodes), show_hidden, sort),
        0,
        indent_of(pattern),
        sort,
        show_hidden,
    ));
    lemma_render_from_lines(
        nodes,
        listing_order(names_of(nodes), show_hidden, sort),
        0,
        pattern,
        sort,
        show_hidden,
    );
}

proof fn lemma_render_from_lines(
    nodes: Seq<Node>,
    order: Seq<int>,
    i: int,
    pattern: Seq<bool>,
    sort: bool,
    show_hidden: bool,
)
    requires
        order == listing_order(names_of(nodes), show_hidden, sort),
    ensures
        forall|j: int|
            0 <= j < render_from(nodes, order, i, indent_of(pattern), sort, show_hidden).len()
                ==> line_below(
                #[trigger] render_from(nodes, order, i, indent_of(pattern), sort, show_hidden)[j],
                pattern,
                show_hidden,
            ),
    decreases nodes, 0int, order.len() - i,
{
    let p = indent_of(pattern);
    if !(i < 0 || i >= order.len() || !(0 <= order[i] < nodes.len())) {
        let node = nodes[order[i]];
        let last = i == order.len() - 1;
        let head = entry_line(p, last, node.name@);
        let below = match node.children {
            Some(c) => render(c@, p + indent_unit(last), sort, show_hidden),
            None => seq![],
        };
        let rest = render_from(nodes, order, i + 1, p, sort, show_hidden);
        law_hidden_entries(names_of(nodes), show_hidden, sort);
        assert(order.contains(order[i]));
        assert(names_of(nodes)[order[i]] == node.key@);
        assert(pattern.take(pattern.len() as int) =~= pattern);
        assert(line_below(head, pattern, show_hidden));
        lemma_render_from_lines(nodes, order, i + 1, pattern, sort, show_hidden);
        match node.children {
            Some(c) => {
                law_prefix_length(pattern, last);
                lemma_render_lines(c@, pattern.push(last), sort, show_hidden);
                assert forall|j: int| 0 <= j < below.len() implies line_below(
                    #[trigger] below[j],
                    pattern,
                    show_hidden,
                ) by {
                    lemma_line_below_shorter(below[j], pattern, last, show_hidden);
                }
            },
            None => {},
        }
        let all = render_from(nodes, order, i, p, sort, show_hidden);
        assert(all == seq![head] + below + rest);
        assert forall|j: int| 0 <= j < all.len() implies line_below(
            #[trigger] all[j],
            pattern,
            show_hidden,
        ) by {
            if j == 0 {
            } else if j < 1 + below.len() {
                assert(all[j] == below[j - 1]);
            } else {
                assert(all[j] == rest[j - 1 - below.len()]);
            }
        }
    }
}

/// Every line drawn for a directory whose lines carry the prefix of the
/// ancestor pattern `pattern` is an entry's line whose prefix is that of a
/// longer pattern beginning with `pattern`: one unit of four characters per
/// level below the root, so a subtree never changes the prefix of the lines
/// after it. Where hidden entries are off, no line, at any depth, names a
/// hidden entry.
pub proof fn law_line_prefixes(nodes: Seq<Node>, pattern: Seq<bool>, sort: bool, show_hidden: bool)
    ensures
        forall|j: int|
            0 <= j < render(nodes, indent_of(pattern), sort, show_hidden).len() ==> line_below(
                #[trigger] render(nodes, indent_of(pattern), sort, show_hidden)[j],
                pattern,
                show_hidden,
            ),
{
    lemma_render_lines(nodes, pattern, sort, show_hidden);
}

proof fn lemma_flags_keep_default(
    args: Seq<Seq<char>>,
    i: int,
    show_hidden: bool,
    sort: bool,
)
    requires
        0 <= i <= args.len(),
        forall|t: int| 0 <= t < args.len() ==> #[trigger] args[t] == flag_hidden() || args[t] == flag_unsorted(),
    ensures
        scan_args(args, i, show_hidden, sort, None) is Run,
        scan_args(args, i, show_hidden, sort, None)->Run_path == current_dir(),
    decreases args.len() - i,
{
    if i < args.len() {
        assert(args[i] == flag_hidden() || args[i] == flag_unsorted());
        if args[i] == flag_hidden() {
            lemma_flags_keep_default(args, i + 1, true, sort);
        } else {
            lemma_flags_keep_default(args, i + 1, show_hidden, false);
        }
    }
}

/// Root line: a command line with no path (only `-a` and `-U`) reads as the
/// path `.`; for the path `.` the first line is `.`; for any other path it is
/// the canonical form of the path where the file system gives one.
pub proof fn law_root_line(args: Seq<Seq<char>>, path: Seq<char>, canonical: Option<Seq<char>>)
    ensures
        (forall|t: int| 0 <= t < args.len() ==> #[trigger] args[t] == flag_hidden() || args[t]
            == flag_unsorted()) ==> parse_spec(args) is Run && root_line_spec(
            parse_spec(args)->Run_path,
            canonical,
        ) == current_dir(),
        path == current_dir() ==> root_line_spec(path, canonical) == current_dir(),
        path != current_dir() && canonical is Some ==> root_line_spec(path, canonical)
            == canonical->0,
{
    if forall|t: int| 0 <= t < args.len() ==> #[trigger] args[t] == flag_hidden() || args[t]
        == flag_unsorted() {
        lemma_flags_keep_default(args, 0, false, true);
    }
}

/// A token that the command line reads as a path: any but the three flags.
pub open spec fn is_path_token(t: Seq<char>) -> bool {
    t != flag_hidden() && t != flag_unsorted() && t != flag_help()
}

proof fn lemma_second_path(
    args: Seq<Seq<char>>,
    t: int,
    show_hidden: bool,
    sort: bool,
    path: Option<Seq<char>>,
    j: int,
)
    requires
        0 <= t <= j < args.len(),
        is_path_token(args[j]),
        forall|u: int| t <= u < j ==> #[trigger] args[u] != flag_help(),
        path is Some || exists|u: int| t <= u < j && #[trigger] is_path_token(args[u]),
    ensures
        scan_args(args, t, show_hidden, sort, path) is MultiplePaths,
    decreases j - t,
{
    if t < j {
        assert(args[t] != flag_help());
        if args[t] == flag_hidden() {
            lemma_second_path(args, t + 1, true, sort, path, j);
        } else if args[t] == flag_unsorted() {
            lemma_second_path(args, t + 1, show_hidden, false, path, j);
        } else if path is None {
            lemma_second_path(args, t + 1, show_hidden, sort, Some(args[t]), j);
        }
    }
}

proof fn lemma_help_first(
    args: Seq<Seq<char>>,
    t: int,
    show_hidden: bool,
    sort: bool,
    path: Option<Seq<char>>,
    h: int,
)
    requires
        0 <= t <= h < args.len(),
        args[h] == flag_help(),
        forall|u: int, v: int|
            t <= u < v < h ==> !(#[trigger] is_path_token(args[u]) && #[trigger] is_path_token(
                args[v],
            )),
        path is Some ==> forall|u: int| t <= u < h ==> !#[trigger] is_path_token(args[u]),
    ensures
        scan_args(args, t, show_hidden, sort, path) is Help,
    decreases h - t,
{
    assert(flag_help() != flag_hidden() && flag_help() != flag_unsorted()) by {
        assert(flag_help().len() != flag_hidden().len());
    }
    if t < h {
        if args[t] == flag_hidden() {
            lemma_help_first(args, t + 1, true, sort, path, h);
        } else if args[t] == flag_unsorted() {
            lemma_help_first(args, t + 1, show_hidden, false, path, h);
        } else if args[t] != flag_help() {
            assert(is_path_token(args[t]));
            lemma_help_first(args, t + 1, show_hidden, sort, Some(args[t]), h);
        }
    }
}

/// Usage error before help: a command line with two path tokens, neither
/// preceded by `--help`, is refused for naming more than one path; one with
/// `--help` before any second path token asks for the usage text.
pub proof fn law_multiple_paths(args: Seq<Seq<char>>, i: int, j: int, h: int)
    ensures
        (0 <= i < j < args.len() && is_path_token(args[i]) && is_path_token(args[j]) && (forall|
            u: int,
        | 0 <= u < j ==> #[trigger] args[u] != flag_help())) ==> parse_spec(args) is MultiplePaths,
        (0 <= h < args.len() && args[h] == flag_help() && (forall|u: int, v: int|
            0 <= u < v < h ==> !(#[trigger] is_path_token(args[u]) && #[trigger] is_path_token(
                args[v],
            )))) ==> parse_spec(args) is Help,
{
    if 0 <= i < j < args.len() && is_path_token(args[i]) && is_path_token(args[j]) && (forall|
        u: int,
    | 0 <= u < j ==> #[trigger] args[u] != flag_help()) {
        assert(is_path_token(args[i]));
        lemma_second_path(args, 0, false, true, None, j);
    }
    if 0 <= h < args.len() && args[h] == flag_help() && (forall|u: int, v: int|
        0 <= u < v < h ==> !(#[trigger] is_path_token(args[u]) && #[trigger] is_path_token(
            args[v],
        ))) {
        lemma_help_first(args, 0, false, true, None, h);
    }
}

/// The number of entries in a listing and, below each directory, in its own
/// listing, at every depth.
pub open spec fn tree_size(nodes: Seq<Node>) -> nat
    decreases nodes,
{
    if nodes.len() == 0 {
        0
    } else {
        1 + match nodes[0].children {
            Some(c) => tree_size(c@),
            None => 0,
        } + tree_size(nodes.drop_first())
    }
}

/// The number of entries in the subtree of `nodes[k]`, itself included.
pub open spec fn entry_size(nodes: Seq<Node>, k: int) -> nat {
    1 + match nodes[k].children {
        Some(c) => tree_size(c@),
        None => 0,
    }
}

/// The sizes of the subtrees at the positions `idx`, summed.
pub open spec fn size_sum(nodes: Seq<Node>, idx: Seq<int>) -> nat
    decreases idx.len(),
{
    if idx.len() == 0 {
        0
    } else {
        entry_size(nodes, idx[0]) + size_sum(nodes, idx.drop_first())
    }
}

proof fn lemma_size_sum_push(nodes: Seq<Node>, idx: Seq<int>, k: int)
    ensures
        size_sum(nodes, idx.push(k)) == size_sum(nodes, idx) + entry_size(nodes, k),
    decreases idx.len(),
{
    if idx.len() > 0 {
        assert(idx.push(k).drop_first() =~= idx.drop_first().push(k));
        assert(idx.push(k)[0] == idx[0]);
        lemma_size_sum_push(nodes, idx.drop_first(), k);
    } else {
        assert(idx.push(k).drop_first() =~= Seq::<int>::empty());
        assert(idx.push(k)[0] == k);
        assert(size_sum(nodes, Seq::<int>::empty()) == 0);
        assert(size_sum(nodes, idx) == 0);
    }
}

proof fn lemma_size_sum_insert(names: Seq<Seq<u8>>, nodes: Seq<Node>, s: Seq<int>, k: int)
    ensures
        size_sum(nodes, insert_by_name(names, s, k)) == size_sum(nodes, s) + entry_size(nodes, k),
    decreases s.len(),
{
    if s.len() == 0 {
        assert(seq![k].drop_first() =~= Seq::<int>::empty());
        assert(seq![k][0] == k);
        assert(size_sum(nodes, Seq::<int>::empty()) == 0);
        assert(size_sum(nodes, s) == 0);
    } else if name_lt(names[k], names[s[0]]) {
        assert((seq![k] + s).drop_first() =~= s);
        assert((seq![k] + s)[0] == k);
    } else {
        lemma_size_sum_insert(names, nodes, s.drop_first(), k);
        let r = insert_by_name(names, s.drop_first(), k);
        assert((seq![s[0]] + r).drop_first() =~= r);
        assert((seq![s[0]] + r)[0] == s[0]);
    }
}

proof fn lemma_size_sum_sort(names: Seq<Seq<u8>>, nodes: Seq<Node>, idx: Seq<int>)
    ensures
        size_sum(nodes, sort_by_name(names, idx)) == size_sum(nodes, idx),
    decreases idx.len(),
{
    if idx.len() > 0 {
        lemma_size_sum_sort(names, nodes, idx.drop_last());
        lemma_size_sum_insert(names, nodes, sort_by_name(names, idx.drop_last()), idx.last());
        lemma_size_sum_push(nodes, idx.drop_last(), idx.last());
        assert(idx.drop_last().push(idx.last()) =~= idx);
    }
}

/// With hidden entries on, every position is listed, in order.
proof fn lemma_all_visible(names: Seq<Seq<u8>>)
    ensures
        visible_indices(names, true) == Seq::new(names.len(), |k: int| k),
    decreases names.len(),
{
    if names.len() > 0 {
        lemma_all_visible(names.drop_last());
        assert(visible_indices(names, true) =~= Seq::new(names.len(), |k: int| k));
    }
}

proof fn lemma_tree_size_sum(nodes: Seq<Node>, t: int)
    requires
        0 <= t <= nodes.len(),
    ensures
        size_sum(nodes, Seq::new(nodes.len(), |k: int| k).skip(t)) == tree_size(nodes.skip(t)),
    decreases nodes.len() - t,
{
    let all = Seq::new(nodes.len(), |k: int| k);
    if t == nodes.len() {
        assert(all.skip(t) =~= Seq::<int>::empty());
        assert(nodes.skip(t) =~= Seq::<Node>::empty());
    } else {
        lemma_tree_size_sum(nodes, t + 1);
        assert(all.skip(t).drop_first() =~= all.skip(t + 1));
        assert(nodes.skip(t).drop_first() =~= nodes.skip(t + 1));
        assert(nodes.skip(t)[0] == nodes[t]);
    }
}

proof fn lemma_render_count(nodes: Seq<Node>, prefix: Seq<char>, sort: bool)
    ensures
        render(nodes, prefix, sort, true).len() == tree_size(nodes),
    decreases nodes, 1int, 0int,
{
    let names = names_of(nodes);
    let ord = listing_order(names, true, sort);
    lemma_render_from_count(nodes, ord, 0, prefix, sort);
    lemma_all_visible(names);
    lemma_size_sum_sort(names, nodes, visible_indices(names, true));
    lemma_tree_size_sum(nodes, 0);
    assert(ord.skip(0) =~= ord);
    assert(Seq::new(nodes.len(), |k: int| k).skip(0) =~= Seq::new(nodes.len(), |k: int| k));
    assert(nodes.skip(0) =~= nodes);
}

proof fn lemma_render_from_count(
    nodes: Seq<Node>,
    order: Seq<int>,
    i: int,
    prefix: Seq<char>,
    sort: bool,
)
    requires
        order == listing_order(names_of(nodes), true, sort),
        0 <= i <= order.len(),
    ensures
        render_from(nodes, order, i, prefix, sort, true).len() == size_sum(nodes, order.skip(i)),
    decreases nodes, 0int, order.len() - i,
{
    if i == order.len() {
        assert(order.skip(i) =~= Seq::<int>::empty());
    } else {
        law_hidden_entries(names_of(nodes), true, sort);
        assert(order.contains(order[i]));
        let node = nodes[order[i]];
        let last = i == order.len() - 1;
        lemma_render_from_count(nodes, order, i + 1, prefix, sort);
        match node.children {
            Some(c) => {
                lemma_render_count(c@, prefix + indent_unit(last), sort);
            },
            None => {},
        }
        assert(order.skip(i).drop_first() =~= order.skip(i + 1));
        assert(order.skip(i)[0] == order[i]);
    }
}

/// Hidden entries shown: with hidden entries on, the lines drawn for a
/// directory are exactly as many as the entries in it and below it, at every
/// depth; with `law_hidden_entries`, which gives each of them one line of its
/// directory, every entry of the tree appears on exactly one line.
pub proof fn law_every_entry_shown(nodes: Seq<Node>, prefix: Seq<char>, sort: bool)
    ensures
        render(nodes, prefix, sort, true).len() == tree_size(nodes),
{
    lemma_render_count(nodes, prefix, sort);
}

} // verus!
