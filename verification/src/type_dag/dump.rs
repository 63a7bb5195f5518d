//! The graph as a text to read.
use super::TypeDag;
use crate::dag::{ends, toposort_graph};
use crate::dag_view::DagView;
use crate::graph::is_topological;
use crate::text_order::{
    byte_len, is_text_less, lemma_byte_len_add, lemma_byte_len_narrow, lemma_text_less_total,
    lemma_text_less_transitive, text_len, text_less,
};
use std::collections::HashSet;
use vstd::prelude::*;

verus! {

broadcast use vstd::std_specs::hash::group_hash_axioms;

/// `count` spaces.
pub open spec fn spaces(count: nat) -> Seq<char> {
    Seq::new(count, |i: int| ' ')
}

pub open spec fn larger(a: nat, b: nat) -> nat {
    if a < b {
        b
    } else {
        a
    }
}

impl DagView {
    /// How the symbol of a node is shown; a node without a symbol is not shown.
    pub open spec fn name(self, node: u32) -> Seq<char> {
        if self.paths.contains_key(node) {
            self.paths[node].name@
        } else {
            Seq::empty()
        }
    }

    /// The nodes stand in the order of their names.
    pub open spec fn is_sorted(self, nodes: Seq<u32>) -> bool {
        forall|i: int, j: int|
            0 <= i < j < nodes.len() ==> !text_less(
                self.name(#[trigger] nodes[j]),
                self.name(#[trigger] nodes[i]),
            )
    }

    /// The nodes with this name, in the order in which they stand.
    pub open spec fn called(self, nodes: Seq<u32>, name: Seq<char>) -> Seq<u32> {
        nodes.filter(|n: u32| self.name(n) == name)
    }

    /// `sorted` holds the nodes of `nodes` in the order of their names; nodes with the same name stay
    /// in the order in which they stood.
    pub open spec fn is_stable_sort(self, nodes: Seq<u32>, sorted: Seq<u32>) -> bool {
        &&& self.is_sorted(sorted)
        &&& forall|name: Seq<char>| #[trigger]
            self.called(sorted, name) == self.called(nodes, name)
    }

    /// The nodes that the symbol of a node depends on, the latest dependency first.
    pub open spec fn used_by(self, node: u32) -> Seq<u32> {
        ends(self.incoming[node as int])
    }

    /// The width that the names of the first `count` of these nodes need when they are shown below
    /// another, with four characters before them.
    pub open spec fn used_width(self, nodes: Seq<u32>, count: nat) -> nat
        decreases count,
    {
        if count == 0 {
            0
        } else {
            let width = self.used_width(nodes, (count - 1) as nat);
            let node = nodes[count - 1];
            if self.paths.contains_key(node) {
                larger(width, byte_len(self.name(node)) + 4)
            } else {
                width
            }
        }
    }

    /// The width that the names of the first `count` of these nodes need, and of those shown below
    /// them.
    pub open spec fn width(self, nodes: Seq<u32>, count: nat) -> nat
        decreases count,
    {
        if count == 0 {
            0
        } else {
            let width = self.width(nodes, (count - 1) as nat);
            let node = nodes[count - 1];
            if self.paths.contains_key(node) {
                let used = self.used_by(node);
                larger(larger(width, byte_len(self.name(node))), self.used_width(used, used.len()))
            } else {
                width
            }
        }
    }

    /// The line of a node: its name, filled up to the width, and its kind.
    pub open spec fn line(self, node: u32, width: nat) -> Seq<char> {
        self.name(node) + spaces((width - byte_len(self.name(node))) as nat) + " : "@
            + self.symbols[node].kind_text@ + "\n"@
    }

    /// The lines below a node: the first `count` nodes that it depends on, each once.
    pub open spec fn used_lines(self, nodes: Seq<u32>, count: nat, width: nat) -> Seq<char>
        decreases count,
    {
        if count == 0 {
            Seq::empty()
        } else {
            let before = self.used_lines(nodes, (count - 1) as nat, width);
            let node = nodes[count - 1];
            if self.paths.contains_key(node) && !nodes.take(count - 1).contains(node) {
                before + " |- "@ + self.line(node, (width - 4) as nat)
            } else {
                before
            }
        }
    }

    /// The lines of the first `count` of these nodes, each with those of the nodes that it depends
    /// on below it.
    pub open spec fn lines(self, nodes: Seq<u32>, count: nat, width: nat) -> Seq<char>
        decreases count,
    {
        if count == 0 {
            Seq::empty()
        } else {
            let before = self.lines(nodes, (count - 1) as nat, width);
            let node = nodes[count - 1];
            if self.paths.contains_key(node) {
                let used = self.used_by(node);
                before + self.line(node, width) + self.used_lines(used, used.len(), width)
            } else {
                before
            }
        }
    }

    /// The text for these nodes.
    pub open spec fn text(self, nodes: Seq<u32>) -> Seq<char> {
        self.lines(nodes, nodes.len(), self.width(nodes, nodes.len()))
    }

    /// What is shown below a node fits.
    pub proof fn lemma_used_fits(self, nodes: Seq<u32>, count: nat, i: int)
        requires
            0 <= i < count <= nodes.len(),
            self.paths.contains_key(nodes[i]),
        ensures
            byte_len(self.name(nodes[i])) + 4 <= self.used_width(nodes, count),
        decreases count,
    {
        if i < count - 1 {
            self.lemma_used_fits(nodes, (count - 1) as nat, i);
        }
    }

    /// Every name that is shown fits.
    pub proof fn lemma_fits(self, nodes: Seq<u32>, count: nat, i: int)
        requires
            0 <= i < count <= nodes.len(),
            self.paths.contains_key(nodes[i]),
        ensures
            byte_len(self.name(nodes[i])) <= self.width(nodes, count),
            self.used_width(self.used_by(nodes[i]), self.used_by(nodes[i]).len()) <= self.width(
                nodes,
                count,
            ),
        decreases count,
    {
        if i < count - 1 {
            self.lemma_fits(nodes, (count - 1) as nat, i);
        }
    }

    /// Where a node is put behind all nodes that do not come after it, and all others behind it come
    /// after it, the nodes stay sorted, and it is the last of those with its name.
    proof fn lemma_insert_sorted(self, sorted: Seq<u32>, node: u32, p: int)
        requires
            self.is_sorted(sorted),
            0 <= p <= sorted.len(),
            forall|i: int|
                p <= i < sorted.len() ==> text_less(
                    self.name(node),
                    self.name(#[trigger] sorted[i]),
                ),
            p > 0 ==> !text_less(self.name(node), self.name(sorted[p - 1])),
        ensures
            self.is_sorted(sorted.insert(p, node)),
            forall|name: Seq<char>| #[trigger]
                self.called(sorted.insert(p, node), name) == self.called(sorted.push(node), name),
    {
        let after = sorted.insert(p, node);
        assert forall|i: int, j: int| 0 <= i < j < after.len() implies !text_less(
            self.name(#[trigger] after[j]),
            self.name(#[trigger] after[i]),
        ) by {
            let a = if i < p { i } else { i - 1 };
            let b = if j < p { j } else { j - 1 };
            if i == p {
                lemma_text_less_transitive(self.name(node), self.name(sorted[b]), Seq::empty());
            } else if j == p {
                if i < p - 1 {
                    lemma_text_less_transitive(
                        self.name(sorted[i]),
                        self.name(sorted[p - 1]),
                        self.name(node),
                    );
                }
            } else {
                assert(after[i] == sorted[a] && after[j] == sorted[b]);
            }
        }
        assert forall|name: Seq<char>| #[trigger] self.called(after, name) == self.called(
            sorted.push(node),
            name,
        ) by {
            let same = |n: u32| self.name(n) == name;
            let front = sorted.take(p);
            let back = sorted.skip(p);
            reveal(Seq::filter);
            assert(after =~= front.push(node) + back);
            assert(sorted =~= front + back);
            assert(front.push(node).drop_last() =~= front);
            assert(sorted.push(node).drop_last() =~= sorted);
            Seq::filter_distributes_over_add(front.push(node), back, same);
            Seq::filter_distributes_over_add(front, back, same);
            if same(node) {
                assert forall|i: int| 0 <= i < back.len() implies !same(#[trigger] back[i]) by {
                    assert(back[i] == sorted[p + i]);
                    lemma_text_less_transitive(
                        self.name(node),
                        self.name(sorted[p + i]),
                        Seq::empty(),
                    );
                }
                lemma_filter_all_out(back, same);
                assert(front.filter(same).push(node) + back.filter(same) =~= (front.filter(same)
                    + back.filter(same)).push(node));
            }
        }
    }
}

/// The kinds in the text stand below each other: in the line of a node, as many bytes stand before
/// the separator as the width says.
pub proof fn law_dump_aligned(dag: DagView, nodes: Seq<u32>, i: int)
    requires
        0 <= i < nodes.len(),
        dag.paths.contains_key(nodes[i]),
    ensures
        ({
            let width = dag.width(nodes, nodes.len());
            let name = dag.name(nodes[i]);
            byte_len(name + spaces((width - byte_len(name)) as nat)) == width
        }),
{
    let width = dag.width(nodes, nodes.len());
    let name = dag.name(nodes[i]);
    let fill = spaces((width - byte_len(name)) as nat);
    dag.lemma_fits(nodes, nodes.len(), i);
    lemma_byte_len_add(name, fill);
    lemma_byte_len_narrow(fill);
}

/// The same holds of the lines below a node: what stands before the name of a node that it depends
/// on counts with the name.
pub proof fn law_dump_used_aligned(dag: DagView, nodes: Seq<u32>, i: int, k: int)
    requires
        0 <= i < nodes.len(),
        dag.paths.contains_key(nodes[i]),
        0 <= k < dag.used_by(nodes[i]).len(),
        dag.paths.contains_key(dag.used_by(nodes[i])[k]),
    ensures
        ({
            let width = dag.width(nodes, nodes.len());
            let used = dag.name(dag.used_by(nodes[i])[k]);
            byte_len(" |- "@ + (used + spaces((width - 4 - byte_len(used)) as nat))) == width
        }),
{
    let width = dag.width(nodes, nodes.len());
    let list = dag.used_by(nodes[i]);
    let used = dag.name(list[k]);
    let fill = spaces((width - 4 - byte_len(used)) as nat);
    dag.lemma_fits(nodes, nodes.len(), i);
    dag.lemma_used_fits(list, list.len(), k);
    reveal_strlit(" |- ");
    lemma_byte_len_add(used, fill);
    lemma_byte_len_add(" |- "@, used + fill);
    lemma_byte_len_narrow(fill);
    lemma_byte_len_narrow(" |- "@);
}

/// The text depends on the edges and on the symbols alone.
pub proof fn lemma_same_text(a: DagView, b: DagView, nodes: Seq<u32>)
    requires
        a.incoming == b.incoming,
        a.paths == b.paths,
        a.symbols == b.symbols,
    ensures
        a.text(nodes) == b.text(nodes),
{
    lemma_same_width(a, b, nodes, nodes.len());
    lemma_same_lines(a, b, nodes, nodes.len(), a.width(nodes, nodes.len()));
}

proof fn lemma_same_used_width(a: DagView, b: DagView, nodes: Seq<u32>, count: nat)
    requires
        a.paths == b.paths,
    ensures
        a.used_width(nodes, count) == b.used_width(nodes, count),
    decreases count,
{
    if count > 0 {
        lemma_same_used_width(a, b, nodes, (count - 1) as nat);
    }
}

proof fn lemma_same_width(a: DagView, b: DagView, nodes: Seq<u32>, count: nat)
    requires
        a.incoming == b.incoming,
        a.paths == b.paths,
    ensures
        a.width(nodes, count) == b.width(nodes, count),
    decreases count,
{
    if count > 0 {
        let used = a.used_by(nodes[count - 1]);
        lemma_same_width(a, b, nodes, (count - 1) as nat);
        lemma_same_used_width(a, b, used, used.len());
    }
}

proof fn lemma_same_used_lines(a: DagView, b: DagView, nodes: Seq<u32>, count: nat, width: nat)
    requires
        a.paths == b.paths,
        a.symbols == b.symbols,
    ensures
        a.used_lines(nodes, count, width) == b.used_lines(nodes, count, width),
    decreases count,
{
    if count > 0 {
        lemma_same_used_lines(a, b, nodes, (count - 1) as nat, width);
    }
}

proof fn lemma_same_lines(a: DagView, b: DagView, nodes: Seq<u32>, count: nat, width: nat)
    requires
        a.incoming == b.incoming,
        a.paths == b.paths,
        a.symbols == b.symbols,
    ensures
        a.lines(nodes, count, width) == b.lines(nodes, count, width),
    decreases count,
{
    if count > 0 {
        let used = a.used_by(nodes[count - 1]);
        lemma_same_lines(a, b, nodes, (count - 1) as nat, width);
        lemma_same_used_lines(a, b, used, used.len(), width);
    }
}

/// The order of the names depends on the names alone.
pub proof fn lemma_same_sort(a: DagView, b: DagView, nodes: Seq<u32>, sorted: Seq<u32>)
    requires
        a.paths == b.paths,
        a.is_stable_sort(nodes, sorted),
    ensures
        b.is_stable_sort(nodes, sorted),
{
    assert forall|name: Seq<char>| #[trigger] b.called(sorted, name) == b.called(nodes, name) by {
        assert((|n: u32| a.name(n) == name) =~= (|n: u32| b.name(n) == name));
        assert(a.called(sorted, name) == a.called(nodes, name));
    }
}

/// What is kept of a list that holds something twice holds it twice, if it is kept.
proof fn lemma_filter_twice(list: Seq<u32>, keep: spec_fn(u32) -> bool, i: int, j: int)
    requires
        0 <= i < j < list.len(),
        list[i] == list[j],
        keep(list[i]),
    ensures
        !list.filter(keep).no_duplicates(),
    decreases list.len(),
{
    reveal(Seq::filter);
    let rest = list.drop_last();
    let kept = list.filter(keep);
    if j < rest.len() {
        lemma_filter_twice(rest, keep, i, j);
        let few = rest.filter(keep);
        let (a, b) = choose|a: int, b: int|
            0 <= a < few.len() && 0 <= b < few.len() && a != b && few[a] == few[b];
        assert(kept[a] == kept[b]);
    } else {
        rest.lemma_filter_contains(keep, i);
        let a = rest.filter(keep).index_of(list[i]);
        assert(kept[a] == kept.last());
    }
}

/// The text has a line of its own for each symbol, exactly one, and these lines stand in the order
/// of the names.
pub proof fn law_dump_headings(dag: DagView, order: Seq<u32>, sorted: Seq<u32>)
    requires
        dag.wf(),
        is_topological(order, dag.incoming),
        dag.is_stable_sort(order, sorted),
    ensures
        sorted.no_duplicates(),
        forall|n: u32| #[trigger] dag.symbols.contains_key(n) ==> sorted.contains(n),
        forall|n: u32| #[trigger] sorted.contains(n) ==> n < dag.incoming.len(),
        dag.is_sorted(sorted),
{
    assert forall|n: u32| #[trigger] sorted.contains(n) <==> order.contains(n) by {
        let name = dag.name(n);
        let same = |m: u32| dag.name(m) == name;
        assert(dag.called(sorted, name) == dag.called(order, name));
        if order.contains(n) {
            order.lemma_filter_contains(same, order.index_of(n));
            sorted.lemma_filter_contains_rev(same, n);
        }
        if sorted.contains(n) {
            sorted.lemma_filter_contains(same, sorted.index_of(n));
            order.lemma_filter_contains_rev(same, n);
        }
    }
    assert forall|i: int, j: int| 0 <= i < j < sorted.len() implies sorted[i] != sorted[j] by {
        if sorted[i] == sorted[j] {
            let name = dag.name(sorted[i]);
            let same = |m: u32| dag.name(m) == name;
            assert(dag.called(sorted, name) == dag.called(order, name));
            lemma_filter_twice(sorted, same, i, j);
            lemma_filter_no_duplicates(order, same);
        }
    }
}

/// There is one way to put nodes in the order of their names and to leave those with the same name
/// in their order, so the text is determined.
pub proof fn law_dump_determined(dag: DagView, order: Seq<u32>, a: Seq<u32>, b: Seq<u32>)
    requires
        dag.is_stable_sort(order, a),
        dag.is_stable_sort(order, b),
    ensures
        a == b,
{
    assert forall|name: Seq<char>| #[trigger] dag.called(a, name) == dag.called(b, name) by {
        assert(dag.called(a, name) == dag.called(order, name));
        assert(dag.called(b, name) == dag.called(order, name));
    }
    lemma_same_sorted(dag, a, b);
}

proof fn lemma_same_sorted(dag: DagView, a: Seq<u32>, b: Seq<u32>)
    requires
        dag.is_sorted(a),
        dag.is_sorted(b),
        forall|name: Seq<char>| #[trigger] dag.called(a, name) == dag.called(b, name),
    ensures
        a == b,
    decreases a.len(),
{
    reveal(Seq::filter);
    if a.len() > 0 {
        lemma_last_not_less(dag, a, b);
    }
    if b.len() > 0 {
        lemma_last_not_less(dag, b, a);
    }
    if a.len() > 0 {
        let x = a.last();
        let y = b.last();
        lemma_text_less_total(dag.name(x), dag.name(y));
        assert(dag.called(a, dag.name(x)).last() == x);
        assert(dag.called(b, dag.name(x)).last() == y);
        let front = a.drop_last();
        let other = b.drop_last();
        assert forall|name: Seq<char>| #[trigger] dag.called(front, name) == dag.called(
            other,
            name,
        ) by {
            assert(dag.called(a, name) == dag.called(b, name));
            if dag.name(x) == name {
                assert(dag.called(a, name).drop_last() =~= dag.called(front, name));
                assert(dag.called(b, name).drop_last() =~= dag.called(other, name));
            }
        }
        lemma_same_sorted(dag, front, other);
        assert(a =~= front.push(x));
        assert(b =~= other.push(y));
    } else {
        assert(a =~= b);
    }
}

/// The last node of `a` stands in `b` too, so it comes no later than the last node there.
proof fn lemma_last_not_less(dag: DagView, a: Seq<u32>, b: Seq<u32>)
    requires
        a.len() > 0,
        dag.is_sorted(b),
        forall|name: Seq<char>| #[trigger] dag.called(a, name) == dag.called(b, name),
    ensures
        b.len() > 0,
        !text_less(dag.name(b.last()), dag.name(a.last())),
{
    let x = a.last();
    let name = dag.name(x);
    let same = |m: u32| dag.name(m) == name;
    a.lemma_filter_contains(same, a.len() - 1);
    assert(dag.called(a, name) == dag.called(b, name));
    b.lemma_filter_contains_rev(same, x);
    let i = b.index_of(x);
    if i == b.len() - 1 {
        lemma_text_less_transitive(name, name, name);
    } else {
        assert(b[i] == x && b[b.len() - 1] == b.last());
    }
}

pub proof fn lemma_filter_no_duplicates(list: Seq<u32>, keep: spec_fn(u32) -> bool)
    requires
        list.no_duplicates(),
    ensures
        list.filter(keep).no_duplicates(),
    decreases list.len(),
{
    reveal(Seq::filter);
    if list.len() > 0 {
        let rest = list.drop_last();
        lemma_filter_no_duplicates(rest, keep);
        if rest.filter(keep).contains(list.last()) {
            rest.lemma_filter_contains_rev(keep, list.last());
        }
    }
}

proof fn lemma_filter_all_out<A>(list: Seq<A>, keep: spec_fn(A) -> bool)
    requires
        forall|i: int| 0 <= i < list.len() ==> !keep(#[trigger] list[i]),
    ensures
        list.filter(keep) == Seq::<A>::empty(),
    decreases list.len(),
{
    reveal(Seq::filter);
    if list.len() > 0 {
        lemma_filter_all_out(list.drop_last(), keep);
    }
}

fn append_spaces(text: &mut String, count: u128)
    ensures
        final(text)@ == old(text)@ + spaces(count as nat),
{
    let mut i: u128 = 0;
    assert(text@ =~= old(text)@ + spaces(0));
    proof {
        reveal_strlit(" ");
    }
    while i < count
        invariant
            i <= count,
            " "@ =~= seq![' '],
            text@ == old(text)@ + spaces(i as nat),
        decreases count - i,
    {
        text.append(" ");
        i = i + 1;
        assert(text@ =~= old(text)@ + spaces(i as nat));
    }
}

impl TypeDag {
    fn name(&self, node: u32) -> (name: &str)
        ensures
            name@ == self@.name(node),
    {
        match self.paths.get(&node) {
            Some(path) => path.name.as_str(),
            None => {
                proof {
                    reveal_strlit("");
                    assert(""@ =~= Seq::empty());
                }
                ""
            },
        }
    }

    /// The nodes in the order of their names; nodes with the same name stay in their order.
    pub fn sort_nodes(&self, nodes: &Vec<u32>) -> (sorted: Vec<u32>)
        ensures
            self@.is_stable_sort(nodes@, sorted@),
            sorted@.len() == nodes@.len(),
            forall|n: u32| #[trigger] sorted@.contains(n) <==> nodes@.contains(n),
    {
        let mut sorted: Vec<u32> = Vec::new();
        let mut i: usize = 0;
        while i < nodes.len()
            invariant
                i <= nodes@.len(),
                self@.is_sorted(sorted@),
                forall|name: Seq<char>| #[trigger]
                    self@.called(sorted@, name) == self@.called(nodes@.take(i as int), name),
                sorted@.len() == i,
                forall|n: u32| #[trigger]
                    sorted@.contains(n) <==> nodes@.take(i as int).contains(n),
            decreases nodes@.len() - i,
        {
            let node: u32 = nodes[i];
            let ghost before = sorted@;
            let mut p: usize = sorted.len();
            while p > 0 && is_text_less(self.name(node), self.name(sorted[p - 1]))
                invariant
                    p <= sorted@.len(),
                    forall|j: int|
                        p <= j < sorted@.len() ==> text_less(
                            self@.name(node),
                            self@.name(#[trigger] sorted@[j]),
                        ),
                decreases p,
            {
                p = p - 1;
            }
            sorted.insert(p, node);
            proof {
                self@.lemma_insert_sorted(before, node, p as int);
                let front = nodes@.take(i as int);
                assert(nodes@.take(i + 1) =~= front.push(node));
                assert forall|name: Seq<char>| #[trigger]
                    self@.called(sorted@, name) == self@.called(nodes@.take(i + 1), name) by {
                    reveal(Seq::filter);
                    assert(self@.called(before, name) == self@.called(front, name));
                    assert(before.push(node).drop_last() =~= before);
                    assert(front.push(node).drop_last() =~= front);
                }
                assert forall|n: u32| #[trigger] sorted@.contains(n) <==> nodes@.take(
                    i + 1,
                ).contains(n) by {
                    lemma_insert_contains(before, p as int, node, n);
                    lemma_insert_contains(front, front.len() as int, node, n);
                    assert(front.insert(front.len() as int, node) =~= front.push(node));
                }
            }
            i = i + 1;
        }
        assert(nodes@.take(nodes@.len() as int) =~= nodes@);
        sorted
    }

    /// The width that the names of the nodes that `node` depends on need below it.
    fn used_width(&self, node: u32) -> (width: u128)
        requires
            self.wf(),
            node < self@.incoming.len(),
        ensures
            width == self@.used_width(self@.used_by(node), self@.used_by(node).len()),
            width <= usize::MAX + 4,
    {
        let parents: Vec<u32> = self.dag.parents(node);
        let mut max_width: u128 = 0;
        let mut i: usize = 0;
        while i < parents.len()
            invariant
                parents@ == self@.used_by(node),
                i <= parents@.len(),
                max_width == self@.used_width(parents@, i as nat),
                max_width <= usize::MAX + 4,
            decreases parents@.len() - i,
        {
            if let Some(path) = self.paths.get(&parents[i]) {
                let len: u128 = text_len(path.name.as_str()) as u128 + 4;
                if max_width < len {
                    max_width = len;
                }
            }
            i = i + 1;
        }
        max_width
    }

    /// The width that the names of these nodes need, and of those shown below them.
    fn width(&self, nodes: &Vec<u32>) -> (width: u128)
        requires
            self.wf(),
            forall|i: int|
                0 <= i < nodes@.len() ==> #[trigger] nodes@[i] < self@.incoming.len(),
        ensures
            width == self@.width(nodes@, nodes@.len()),
    {
        let mut max_width: u128 = 0;
        let mut i: usize = 0;
        while i < nodes.len()
            invariant
                self.wf(),
                forall|i: int|
                    0 <= i < nodes@.len() ==> #[trigger] nodes@[i] < self@.incoming.len(),
                i <= nodes@.len(),
                max_width == self@.width(nodes@, i as nat),
                max_width <= usize::MAX + 4,
            decreases nodes@.len() - i,
        {
            if let Some(path) = self.paths.get(&nodes[i]) {
                let len: u128 = text_len(path.name.as_str()) as u128;
                if max_width < len {
                    max_width = len;
                }
                let used: u128 = self.used_width(nodes[i]);
                if max_width < used {
                    max_width = used;
                }
            }
            i = i + 1;
        }
        max_width
    }

    fn append_line(&self, text: &mut String, node: u32, width: u128)
        requires
            self.wf(),
            self@.paths.contains_key(node),
            byte_len(self@.name(node)) <= width,
        ensures
            final(text)@ == old(text)@ + self@.line(node, width as nat),
    {
        let ghost before = text@;
        assert(self@.paths.dom().contains(node));
        let name: &str = self.name(node);
        let kind: &str = self.symbols.get(&node).unwrap().kind_text.as_str();
        text.append(name);
        append_spaces(text, width - text_len(name) as u128);
        text.append(" : ");
        text.append(kind);
        text.append("\n");
        assert(text@ =~= before + self@.line(node, width as nat));
    }

    fn append_used_lines(&self, text: &mut String, node: u32, width: u128)
        requires
            self.wf(),
            node < self@.incoming.len(),
            self@.used_width(self@.used_by(node), self@.used_by(node).len()) <= width,
        ensures
            final(text)@ == old(text)@ + self@.used_lines(
                self@.used_by(node),
                self@.used_by(node).len(),
                width as nat,
            ),
    {
        let ghost before = text@;
        let parents: Vec<u32> = self.dag.parents(node);
        let mut set: HashSet<u32> = HashSet::new();
        let mut i: usize = 0;
        assert(parents@.take(0).to_set() =~= set@);
        assert(text@ =~= before + self@.used_lines(parents@, 0, width as nat));
        while i < parents.len()
            invariant
                self.wf(),
                parents@ == self@.used_by(node),
                self@.used_width(parents@, parents@.len()) <= width,
                i <= parents@.len(),
                set@ == parents@.take(i as int).to_set(),
                text@ == before + self@.used_lines(parents@, i as nat, width as nat),
            decreases parents@.len() - i,
        {
            let parent: u32 = parents[i];
            let ghost seen = parents@.take(i as int);
            assert(parents@.take(i + 1) =~= seen.push(parent));
            assert(seen.push(parent).to_set() =~= seen.to_set().insert(parent)) by {
                assert forall|n: u32| #[trigger]
                    seen.push(parent).to_set().contains(n) <==> seen.to_set().insert(
                        parent,
                    ).contains(n) by {
                    lemma_insert_contains(seen, seen.len() as int, parent, n);
                    assert(seen.insert(seen.len() as int, parent) =~= seen.push(parent));
                }
            }
            if !set.contains(&parent) {
                set.insert(parent);
                if self.paths.contains_key(&parent) {
                    proof {
                        self@.lemma_used_fits(parents@, parents@.len(), i as int);
                    }
                    let ghost mid = text@;
                    text.append(" |- ");
                    self.append_line(text, parent, width - 4);
                    assert(text@ =~= before + self@.used_lines(
                        parents@,
                        i as nat + 1,
                        width as nat,
                    ));
                }
            } else {
                assert(seen.contains(parent));
                assert(set@ =~= parents@.take(i + 1).to_set());
            }
            i = i + 1;
        }
    }

    /// The text for these nodes: each that stands for a symbol, with its kind, and below it those
    /// that it depends on.
    pub fn dump_nodes(&self, nodes: &Vec<u32>) -> (text: String)
        requires
            self.wf(),
            forall|i: int|
                0 <= i < nodes@.len() ==> #[trigger] nodes@[i] < self@.incoming.len(),
        ensures
            text@ == self@.text(nodes@),
    {
        let max_width: u128 = self.width(nodes);
        let mut ret: String = String::new();
        let mut i: usize = 0;
        while i < nodes.len()
            invariant
                self.wf(),
                forall|i: int|
                    0 <= i < nodes@.len() ==> #[trigger] nodes@[i] < self@.incoming.len(),
                max_width == self@.width(nodes@, nodes@.len()),
                i <= nodes@.len(),
                ret@ == self@.lines(nodes@, i as nat, max_width as nat),
            decreases nodes@.len() - i,
        {
            let node: u32 = nodes[i];
            if self.paths.contains_key(&node) {
                proof {
                    self@.lemma_fits(nodes@, nodes@.len(), i as int);
                }
                self.append_line(&mut ret, node, max_width);
                self.append_used_lines(&mut ret, node, max_width);
            }
            i = i + 1;
        }
        ret
    }

    /// The text for the whole graph, with the symbols in the order of their names.
    pub fn dump(&self) -> (text: String)
        requires
            self.wf(),
        ensures
            is_topological(self@.order(), self@.incoming),
            exists|sorted: Seq<u32>| #[trigger]
                self@.is_stable_sort(self@.order(), sorted) && text@ == self@.text(sorted),
    {
        let order: Vec<u32> = toposort_graph(self.dag.graph()).unwrap();
        let nodes: Vec<u32> = self.sort_nodes(&order);
        assert forall|i: int| 0 <= i < nodes@.len() implies #[trigger] nodes@[i]
            < self@.incoming.len() by {
            assert(nodes@.contains(nodes@[i]));
            assert(order@.contains(nodes@[i]));
        }
        let ret: String = self.dump_nodes(&nodes);
        assert(self@.is_stable_sort(self@.order(), nodes@) && ret@ == self@.text(nodes@));
        ret
    }
}

proof fn lemma_insert_contains(list: Seq<u32>, p: int, node: u32, n: u32)
    requires
        0 <= p <= list.len(),
    ensures
        list.insert(p, node).contains(n) <==> n == node || list.contains(n),
{
    let after = list.insert(p, node);
    assert(after[p] == node);
    if list.contains(n) {
        let i = list.index_of(n);
        if i < p {
            assert(after[i] == n);
        } else {
            assert(after[i + 1] == n);
        }
    }
    if after.contains(n) {
        let i = after.index_of(n);
        if i < p {
            assert(list[i] == n);
        } else if i > p {
            assert(list[i - 1] == n);
        }
    }
}

} // verus!
