//! What stands in the text of a graph.
use super::dump::{law_dump_headings, lemma_filter_no_duplicates};
use crate::dag::ends;
use crate::dag_view::DagView;
use crate::dfs::lemma_ends;
use crate::graph::{has_edge, is_topological};
use crate::text_order::{byte_len, lemma_byte_len_add, lemma_byte_len_narrow, text_less};
use vstd::prelude::*;

verus! {

/// The lines one after the other.
pub open spec fn joined(lines: Seq<Seq<char>>) -> Seq<char>
    decreases lines.len(),
{
    if lines.len() == 0 {
        Seq::empty()
    } else {
        joined(lines.drop_last()) + lines.last()
    }
}

/// A line: what stands before a name, the name, as many blanks as bring both to the width, and the
/// kind.
pub open spec fn text_line(
    before: Seq<char>,
    name: Seq<char>,
    kind: Seq<char>,
    width: nat,
) -> Seq<char> {
    before + name + Seq::new((width - byte_len(before + name)) as nat, |i: int| ' ') + " : "@ + kind
        + "\n"@
}

/// The line of a node.
pub open spec fn heading(dag: DagView, node: u32, width: nat) -> Seq<char> {
    text_line(Seq::empty(), dag.paths[node].name@, dag.symbols[node].kind_text@, width)
}

/// The line of a node below another.
pub open spec fn item(dag: DagView, node: u32, width: nat) -> Seq<char> {
    text_line(" |- "@, dag.paths[node].name@, dag.symbols[node].kind_text@, width)
}

/// The lines below a node.
pub open spec fn items(dag: DagView, below: Seq<u32>, width: nat) -> Seq<Seq<char>> {
    below.map_values(|node: u32| item(dag, node, width))
}

/// For each node its line, and then the lines of those below it.
pub open spec fn all_lines(
    dag: DagView,
    shown: Seq<u32>,
    below: Seq<Seq<u32>>,
    width: nat,
) -> Seq<Seq<char>>
    decreases shown.len(),
{
    if shown.len() == 0 {
        Seq::empty()
    } else {
        all_lines(dag, shown.drop_last(), below.drop_last(), width).push(
            heading(dag, shown.last(), width),
        ) + items(dag, below.last(), width)
    }
}

/// `below` holds, each once, the nodes other than the source from which an edge leads to `node`, and
/// begins with the one whose edge came last.
pub open spec fn is_below(dag: DagView, node: u32, below: Seq<u32>) -> bool {
    &&& below.no_duplicates()
    &&& forall|p: u32| #[trigger]
        below.contains(p) <==> p != dag.source && has_edge(dag.incoming, p, node)
    &&& forall|j: int, k: int|
        0 <= j < k < below.len() ==> #[trigger] comes_first(
            ends(dag.incoming[node as int]),
            below[j],
            below[k],
        )
}

/// `a` stands in the list before any `b`.
pub open spec fn comes_first(list: Seq<u32>, a: u32, b: u32) -> bool {
    exists|x: int|
        0 <= x < list.len() && #[trigger] list[x] == a && (forall|y: int|
            0 <= y <= x ==> #[trigger] list[y] != b)
}

proof fn lemma_joined_add(a: Seq<Seq<char>>, b: Seq<Seq<char>>)
    ensures
        joined(a + b) == joined(a) + joined(b),
    decreases b.len(),
{
    if b.len() == 0 {
        assert(a + b =~= a);
        assert(joined(a) + joined(b) =~= joined(a));
    } else {
        lemma_joined_add(a, b.drop_last());
        assert((a + b).drop_last() =~= a + b.drop_last());
        assert((a + b).last() == b.last());
        assert(joined(a) + (joined(b.drop_last()) + b.last()) =~= (joined(a) + joined(
            b.drop_last(),
        )) + b.last());
    }
}

proof fn lemma_heading(dag: DagView, node: u32, width: nat)
    requires
        dag.paths.contains_key(node),
    ensures
        dag.line(node, width) == heading(dag, node, width),
{
    let name = dag.paths[node].name@;
    assert(Seq::<char>::empty() + name =~= name);
    assert(dag.line(node, width) =~= heading(dag, node, width));
}

proof fn lemma_item(dag: DagView, node: u32, width: nat)
    requires
        dag.paths.contains_key(node),
        byte_len(dag.paths[node].name@) + 4 <= width,
    ensures
        " |- "@ + dag.line(node, (width - 4) as nat) == item(dag, node, width),
{
    let name = dag.paths[node].name@;
    reveal_strlit(" |- ");
    lemma_byte_len_add(" |- "@, name);
    lemma_byte_len_narrow(" |- "@);
    assert(" |- "@ + dag.line(node, (width - 4) as nat) =~= item(dag, node, width));
}

/// The lines below a node are those of the nodes in the list, each once.
proof fn lemma_used_lines(dag: DagView, nodes: Seq<u32>, count: nat, width: nat) -> (below: Seq<u32>)
    requires
        count <= nodes.len(),
        dag.used_width(nodes, nodes.len()) <= width,
    ensures
        dag.used_lines(nodes, count, width) == joined(items(dag, below, width)),
        below.no_duplicates(),
        forall|p: u32| #[trigger]
            below.contains(p) <==> dag.paths.contains_key(p) && nodes.take(count as int).contains(p),
        forall|j: int, k: int|
            0 <= j < k < below.len() ==> #[trigger] comes_first(nodes, below[j], below[k]),
    decreases count,
{
    if count == 0 {
        let below = Seq::<u32>::empty();
        assert(items(dag, below, width) =~= Seq::empty());
        below
    } else {
        let k = count - 1;
        let before = lemma_used_lines(dag, nodes, k as nat, width);
        let node = nodes[k];
        let front = nodes.take(k);
        assert(nodes.take(count as int) =~= front.push(node));
        assert forall|p: u32| #[trigger] nodes.take(count as int).contains(p) <==> front.contains(p)
            || p == node by {
            if front.contains(p) {
                let i = front.index_of(p);
                assert(front.push(node)[i] == p);
            }
            assert(front.push(node)[k] == node);
            if front.push(node).contains(p) && p != node {
                let i = front.push(node).index_of(p);
                assert(front[i] == p);
            }
        }
        if dag.paths.contains_key(node) && !front.contains(node) {
            let below = before.push(node);
            dag.lemma_used_fits(nodes, nodes.len(), k);
            lemma_item(dag, node, width);
            assert(items(dag, below, width) =~= items(dag, before, width).push(
                item(dag, node, width),
            ));
            assert(items(dag, below, width).drop_last() =~= items(dag, before, width));
            assert(dag.used_lines(nodes, count, width) =~= joined(items(dag, below, width)));
            assert(!before.contains(node));
            assert forall|p: u32| #[trigger] below.contains(p) <==> before.contains(p) || p
                == node by {
                if before.contains(p) {
                    let i = before.index_of(p);
                    assert(below[i] == p);
                }
                assert(below[before.len() as int] == node);
                if below.contains(p) && p != node {
                    let i = below.index_of(p);
                    assert(before[i] == p);
                }
            }
            assert forall|i: int, j: int| 0 <= i < j < below.len() implies #[trigger] comes_first(
                nodes,
                below[i],
                below[j],
            ) by {
                if j < before.len() {
                    assert(comes_first(nodes, before[i], before[j]));
                } else {
                    assert(before.contains(before[i]));
                    let x = front.index_of(before[i]);
                    assert(nodes[x] == below[i]);
                    assert forall|y: int| 0 <= y <= x implies #[trigger] nodes[y] != node by {
                        assert(front[y] == nodes[y]);
                        assert(front.contains(front[y]));
                    }
                }
            }
            below
        } else {
            before
        }
    }
}

/// The lines of nodes, and of those below each.
proof fn lemma_lines(dag: DagView, nodes: Seq<u32>, count: nat, width: nat) -> (parts: (
    Seq<u32>,
    Seq<Seq<u32>>,
))
    requires
        dag.wf(),
        count <= nodes.len(),
        width == dag.width(nodes, nodes.len()),
    ensures
        dag.lines(nodes, count, width) == joined(all_lines(dag, parts.0, parts.1, width)),
        parts.0 == nodes.take(count as int).filter(|n: u32| dag.paths.contains_key(n)),
        parts.1.len() == parts.0.len(),
        forall|i: int|
            0 <= i < parts.0.len() ==> is_below(dag, #[trigger] parts.0[i], parts.1[i]),
    decreases count,
{
    reveal(Seq::filter);
    if count == 0 {
        let parts = (Seq::<u32>::empty(), Seq::<Seq<u32>>::empty());
        assert(parts.0 =~= nodes.take(0).filter(|n: u32| dag.paths.contains_key(n)));
        parts
    } else {
        let k = count - 1;
        let (shown, below) = lemma_lines(dag, nodes, k as nat, width);
        let node = nodes[k];
        assert(nodes.take(count as int).drop_last() =~= nodes.take(k));
        if dag.paths.contains_key(node) {
            dag.lemma_fits(nodes, nodes.len(), k);
            let used = dag.used_by(node);
            let items_below = lemma_used_lines(dag, used, used.len(), width);
            assert(dag.paths.dom().contains(node));
            assert(dag.symbols.contains_key(node));
            assert(used.take(used.len() as int) =~= used);
            assert forall|p: u32| #[trigger] items_below.contains(p) <==> p != dag.source
                && has_edge(dag.incoming, p, node) by {
                lemma_ends(dag.incoming, p, node);
                assert(dag.paths.dom().contains(p) <==> dag.symbols.dom().contains(p));
                assert(dag.symbols.contains_key(p) <==> p < dag.incoming.len() && p != dag.source);
            }
            assert(is_below(dag, node, items_below));
            let shown_now = shown.push(node);
            let below_now = below.push(items_below);
            assert(shown_now.drop_last() =~= shown);
            assert(below_now.drop_last() =~= below);
            lemma_heading(dag, node, width);
            let before = all_lines(dag, shown, below, width);
            assert(before.push(heading(dag, node, width)).drop_last() =~= before);
            lemma_joined_add(
                before.push(heading(dag, node, width)),
                items(dag, items_below, width),
            );
            assert forall|i: int| 0 <= i < shown_now.len() implies is_below(
                dag,
                #[trigger] shown_now[i],
                below_now[i],
            ) by {
                if i < shown.len() {
                    assert(is_below(dag, shown[i], below[i]));
                }
            }
            (shown_now, below_now)
        } else {
            (shown, below)
        }
    }
}

/// The text is made of lines: for each symbol, in the order of the names, one with its name and its
/// kind, and directly below it, whatever the kinds are, one for each node other than the source
/// from which an edge leads to it, with the name and the kind of that node, the one whose edge
/// came last first.
pub proof fn law_dump_lines(dag: DagView, order: Seq<u32>, sorted: Seq<u32>) -> (parts: (
    Seq<u32>,
    Seq<Seq<u32>>,
    nat,
))
    requires
        dag.wf(),
        is_topological(order, dag.incoming),
        dag.is_stable_sort(order, sorted),
    ensures
        ({
            let (shown, below, width) = parts;
            &&& shown.no_duplicates()
            &&& forall|n: u32| #[trigger] shown.contains(n) <==> dag.symbols.contains_key(n)
            &&& forall|i: int, j: int|
                0 <= i < j < shown.len() ==> !text_less(
                    dag.paths[#[trigger] shown[j]].name@,
                    dag.paths[#[trigger] shown[i]].name@,
                )
            &&& below.len() == shown.len()
            &&& forall|i: int|
                0 <= i < shown.len() ==> is_below(dag, #[trigger] shown[i], below[i])
            &&& dag.text(sorted) == joined(all_lines(dag, shown, below, width))
            &&& is_width(dag, width)
        }),
{
    let width = dag.width(sorted, sorted.len());
    let keep = |n: u32| dag.paths.contains_key(n);
    let (shown, below) = lemma_lines(dag, sorted, sorted.len(), width);
    assert(sorted.take(sorted.len() as int) =~= sorted);
    law_dump_headings(dag, order, sorted);
    lemma_filter_no_duplicates(sorted, keep);
    assert forall|n: u32| #[trigger] shown.contains(n) <==> dag.symbols.contains_key(n) by {
        assert(dag.paths.dom().contains(n) <==> dag.symbols.dom().contains(n));
        if dag.symbols.contains_key(n) {
            sorted.lemma_filter_contains(keep, sorted.index_of(n));
        }
        if shown.contains(n) {
            sorted.lemma_filter_pred(keep, shown.index_of(n));
        }
    }
    assert forall|i: int, j: int| 0 <= i < j < shown.len() implies !text_less(
        dag.paths[#[trigger] shown[j]].name@,
        dag.paths[#[trigger] shown[i]].name@,
    ) by {
        let (a, b) = crate::laws::lemma_filter_order(sorted, keep, i, j);
        sorted.lemma_filter_pred(keep, i);
        sorted.lemma_filter_pred(keep, j);
        assert(!text_less(dag.name(sorted[b]), dag.name(sorted[a])));
    }
    lemma_width(dag, sorted);
    (shown, below, width)
}

/// The width is the smallest into which every name fits, where a name below another takes four bytes
/// more.
pub open spec fn is_width(dag: DagView, width: nat) -> bool {
    &&& forall|n: u32| #[trigger]
        dag.symbols.contains_key(n) ==> byte_len(dag.paths[n].name@) <= width
    &&& forall|p: u32, n: u32| #[trigger]
        has_edge(dag.incoming, p, n) && p != dag.source && dag.symbols.contains_key(n) ==> byte_len(
            dag.paths[p].name@,
        ) + 4 <= width
    &&& {
        ||| width == 0
        ||| exists|n: u32| #[trigger]
            dag.symbols.contains_key(n) && byte_len(dag.paths[n].name@) == width
        ||| exists|p: u32, n: u32| #[trigger]
            has_edge(dag.incoming, p, n) && p != dag.source && byte_len(dag.paths[p].name@) + 4
                == width
    }
}

proof fn lemma_used_width_attained(dag: DagView, nodes: Seq<u32>, count: nat)
    requires
        count <= nodes.len(),
    ensures
        dag.used_width(nodes, count) == 0 || exists|i: int|
            0 <= i < count && dag.paths.contains_key(#[trigger] nodes[i]) && byte_len(
                dag.paths[nodes[i]].name@,
            ) + 4 == dag.used_width(nodes, count),
    decreases count,
{
    if count > 0 {
        lemma_used_width_attained(dag, nodes, (count - 1) as nat);
        let width = dag.used_width(nodes, (count - 1) as nat);
        if dag.used_width(nodes, count) != width {
            assert(dag.paths.contains_key(nodes[count - 1]));
        } else if width != 0 {
            let i = choose|i: int|
                0 <= i < count - 1 && dag.paths.contains_key(#[trigger] nodes[i]) && byte_len(
                    dag.paths[nodes[i]].name@,
                ) + 4 == width;
            assert(dag.paths.contains_key(nodes[i]));
        }
    }
}

proof fn lemma_width_attained(dag: DagView, nodes: Seq<u32>, count: nat)
    requires
        dag.wf(),
        count <= nodes.len(),
    ensures
        ({
            let width = dag.width(nodes, count);
            ||| width == 0
            ||| exists|n: u32| #[trigger]
                dag.symbols.contains_key(n) && byte_len(dag.paths[n].name@) == width
            ||| exists|p: u32, n: u32| #[trigger]
                has_edge(dag.incoming, p, n) && p != dag.source && byte_len(dag.paths[p].name@) + 4
                    == width
        }),
    decreases count,
{
    if count > 0 {
        lemma_width_attained(dag, nodes, (count - 1) as nat);
        let node = nodes[count - 1];
        if dag.paths.contains_key(node) {
            assert(dag.paths.dom().contains(node));
            assert(dag.symbols.contains_key(node));
            let used = dag.used_by(node);
            lemma_used_width_attained(dag, used, used.len());
            let below = dag.used_width(used, used.len());
            if below != 0 {
                let i = choose|i: int|
                    0 <= i < used.len() && dag.paths.contains_key(#[trigger] used[i]) && byte_len(
                        dag.paths[used[i]].name@,
                    ) + 4 == below;
                assert(used.contains(used[i]));
                lemma_ends(dag.incoming, used[i], node);
                assert(dag.paths.dom().contains(used[i]));
                assert(dag.symbols.contains_key(used[i]));
                assert(has_edge(dag.incoming, used[i], node));
            }
        }
    }
}

proof fn lemma_width(dag: DagView, sorted: Seq<u32>)
    requires
        dag.wf(),
        forall|n: u32| #[trigger] dag.symbols.contains_key(n) ==> sorted.contains(n),
    ensures
        is_width(dag, dag.width(sorted, sorted.len())),
{
    let width = dag.width(sorted, sorted.len());
    lemma_width_attained(dag, sorted, sorted.len());
    assert forall|n: u32| #[trigger] dag.symbols.contains_key(n) implies byte_len(
        dag.paths[n].name@,
    ) <= width by {
        assert(dag.symbols.dom().contains(n));
        dag.lemma_fits(sorted, sorted.len(), sorted.index_of(n));
    }
    assert forall|p: u32, n: u32| #[trigger]
        has_edge(dag.incoming, p, n) && p != dag.source && dag.symbols.contains_key(n) implies byte_len(
        dag.paths[p].name@,
    ) + 4 <= width by {
        assert(dag.symbols.dom().contains(n));
        dag.lemma_fits(sorted, sorted.len(), sorted.index_of(n));
        let used = dag.used_by(n);
        lemma_ends(dag.incoming, p, n);
        assert(dag.symbols.contains_key(p));
        assert(dag.symbols.dom().contains(p));
        dag.lemma_used_fits(used, used.len(), used.index_of(p));
    }
}

/// The text has as many lines as there are symbols and pairs of a symbol and another that it depends
/// on.
pub proof fn law_dump_line_count(
    dag: DagView,
    shown: Seq<u32>,
    below: Seq<Seq<u32>>,
    width: nat,
) -> (pairs: Seq<(u32, u32)>)
    requires
        shown.no_duplicates(),
        below.len() == shown.len(),
        forall|i: int| 0 <= i < shown.len() ==> is_below(dag, #[trigger] shown[i], below[i]),
    ensures
        pairs.no_duplicates(),
        forall|p: u32, n: u32| #[trigger]
            pairs.contains((p, n)) <==> p != dag.source && shown.contains(n) && has_edge(
                dag.incoming,
                p,
                n,
            ),
        all_lines(dag, shown, below, width).len() == shown.len() + pairs.len(),
    decreases shown.len(),
{
    if shown.len() == 0 {
        Seq::empty()
    } else {
        let front = shown.drop_last();
        let node = shown.last();
        assert forall|i: int| 0 <= i < front.len() implies is_below(
            dag,
            #[trigger] front[i],
            below.drop_last()[i],
        ) by {
            assert(is_below(dag, shown[i], below[i]));
        }
        let before = law_dump_line_count(dag, front, below.drop_last(), width);
        let last = below.last();
        assert(is_below(dag, shown[shown.len() - 1], last));
        let new = last.map_values(|p: u32| (p, node));
        let pairs = before + new;
        assert(!front.contains(node));
        assert forall|n: u32| #[trigger] shown.contains(n) <==> front.contains(n) || n == node by {
            if front.contains(n) {
                assert(shown[front.index_of(n)] == n);
            }
            if shown.contains(n) && n != node {
                assert(front[shown.index_of(n)] == n);
            }
        }
        assert forall|p: u32, n: u32| #[trigger] pairs.contains((p, n)) <==> before.contains((p, n))
            || (n == node && last.contains(p)) by {
            if before.contains((p, n)) {
                assert(pairs[before.index_of((p, n))] == (p, n));
            }
            if n == node && last.contains(p) {
                let i = last.index_of(p);
                assert(new[i] == (p, n));
                assert(pairs[before.len() + i] == (p, n));
            }
            if pairs.contains((p, n)) {
                let i = pairs.index_of((p, n));
                if i < before.len() {
                    assert(before[i] == (p, n));
                } else {
                    assert(new[i - before.len()] == (p, n));
                    assert(last[i - before.len()] == p);
                }
            }
        }
        assert forall|i: int, j: int| 0 <= i < j < pairs.len() implies pairs[i] != pairs[j] by {
            if i < before.len() && j >= before.len() {
                let (p, n) = before[i];
                assert(before.contains((p, n)));
                assert(front.contains(n));
                assert(pairs[j].1 == node);
            } else if i >= before.len() {
                assert(last[i - before.len()] != last[j - before.len()]);
            }
        }
        pairs
    }
}

/// Nodes with the same name stand in the order in which they stood before they were sorted.
pub proof fn law_dump_stable(dag: DagView, order: Seq<u32>, sorted: Seq<u32>, i: int, j: int) -> (places:
    (int, int))
    requires
        dag.is_stable_sort(order, sorted),
        0 <= i < j < sorted.len(),
        dag.name(sorted[i]) == dag.name(sorted[j]),
    ensures
        0 <= places.0 < places.1 < order.len(),
        order[places.0] == sorted[i],
        order[places.1] == sorted[j],
{
    let name = dag.name(sorted[i]);
    let same = |n: u32| dag.name(n) == name;
    assert(dag.called(sorted, name) == dag.called(order, name));
    let (a, b) = crate::laws::lemma_filter_place(sorted, same, i, j);
    crate::laws::lemma_filter_order(order, same, a, b)
}

} // verus!
