//! The symbols of the graph in an order in which each comes after what it depends on, and the
//! symbols that each symbol depends on.
use super::TypeDag;
use crate::context::Context;
use crate::dag::{
    clone_graph, dfs_stack, dfs_visited, graph_outgoing, is_next_place, new_dfs, next_dfs,
    reverse_graph, toposort_graph,
};
use crate::dag_view::DagView;
use crate::dfs::{
    component_order, dfs_order, lemma_component_order, lemma_ends_in_range,
    lemma_next_place_unique, lemma_stack_after, lemma_visit_decreases, stack_after,
    stack_in_range, unvisited_count,
};
use crate::graph::is_topological;
use crate::symbol::Symbol;
use daggy::petgraph::graph::{DiGraph, NodeIndex};
use daggy::petgraph::visit::Dfs;
use fixedbitset::FixedBitSet;
use std::collections::hash_map::Keys;
use vstd::prelude::*;
use vstd::std_specs::iter::IteratorSpec;

verus! {

broadcast use vstd::std_specs::hash::group_hash_axioms;

impl DagView {
    /// The nodes among `nodes` that stand for a symbol.
    pub open spec fn named(self, nodes: Seq<u32>) -> Seq<u32> {
        nodes.filter(|n: u32| self.paths.contains_key(n))
    }

    /// The symbols of those nodes among `nodes` that stand for one.
    pub open spec fn symbols_of(self, nodes: Seq<u32>) -> Seq<Symbol> {
        self.named(nodes).map_values(|n: u32| self.symbols[n])
    }

    /// The symbol of a node, followed by the symbols that it depends on, in the order in which a
    /// depth-first traversal meets them.
    pub open spec fn component(self, node: u32) -> Seq<Symbol> {
        self.symbols_of(component_order(self.incoming, node))
    }

    /// What was found, one list for each symbol, where the symbols were taken in the order of
    /// `keys`.
    pub open spec fn are_components(self, keys: Seq<u32>, components: Seq<Vec<Symbol>>) -> bool {
        &&& keys.no_duplicates()
        &&& keys.to_set() == self.symbols.dom()
        &&& components.len() == keys.len()
        &&& forall|i: int|
            0 <= i < keys.len() ==> (#[trigger] components[i])@ == self.component(keys[i])
    }

    proof fn lemma_symbols_of_push(self, nodes: Seq<u32>, node: u32)
        ensures
            self.symbols_of(nodes.push(node)) == (if self.paths.contains_key(node) {
                self.symbols_of(nodes).push(self.symbols[node])
            } else {
                self.symbols_of(nodes)
            }),
    {
        reveal(Seq::filter);
        assert(nodes.push(node).drop_last() =~= nodes);
        assert(self.symbols_of(nodes.push(node)) =~= (if self.paths.contains_key(node) {
            self.symbols_of(nodes).push(self.symbols[node])
        } else {
            self.symbols_of(nodes)
        }));
    }

    proof fn lemma_component_nonempty(self, node: u32)
        requires
            self.wf(),
            self.symbols.contains_key(node),
        ensures
            self.component(node).len() > 0,
    {
        let order = component_order(self.incoming, node);
        lemma_component_order(self.incoming, node);
        assert(self.paths.dom().contains(node));
        order.lemma_filter_contains(|n: u32| self.paths.contains_key(n), 0);
    }
}

impl TypeDag {
    /// The symbols of those nodes among `nodes` that stand for one, in their order.
    pub fn symbols_in_order(&self, nodes: &Vec<u32>) -> (symbols: Vec<Symbol>)
        requires
            self.wf(),
        ensures
            symbols@ == self@.symbols_of(nodes@),
    {
        let mut ret: Vec<Symbol> = Vec::new();
        let mut i: usize = 0;
        assert(self@.symbols_of(nodes@.take(0)) =~= Seq::empty());
        while i < nodes.len()
            invariant
                self.wf(),
                i <= nodes@.len(),
                ret@ == self@.symbols_of(nodes@.take(i as int)),
            decreases nodes@.len() - i,
        {
            let index: u32 = nodes[i];
            proof {
                assert(nodes@.take(i + 1) =~= nodes@.take(i as int).push(index));
                self@.lemma_symbols_of_push(nodes@.take(i as int), index);
                assert(self@.paths.dom() == self@.symbols.dom());
            }
            if self.paths.contains_key(&index) {
                assert(self@.paths.dom().contains(index));
                let sym: Symbol = self.get_symbol(index);
                ret.push(sym);
            }
            i = i + 1;
        }
        assert(nodes@.take(nodes@.len() as int) =~= nodes@);
        ret
    }

    /// All symbols, each after those that it depends on.
    pub fn toposort(&self) -> (symbols: Vec<Symbol>)
        requires
            self.wf(),
        ensures
            is_topological(self@.order(), self@.incoming),
            symbols@ == self@.symbols_of(self@.order()),
    {
        let nodes: Vec<u32> = toposort_graph(self.dag.graph()).unwrap();
        self.symbols_in_order(&nodes)
    }

    /// For each symbol, the symbol itself and then those that it depends on.
    pub fn connected_components(&self) -> (components: Vec<Vec<Symbol>>)
        requires
            self.wf(),
        ensures
            exists|keys: Seq<u32>| #[trigger] self@.are_components(keys, components@),
    {
        let mut ret: Vec<Vec<Symbol>> = Vec::new();
        let mut graph: DiGraph<(), Context, u32> = clone_graph(self.dag.graph());

        // Reverse edge to traverse nodes which are called from parent node
        reverse_graph(&mut graph);
        assert(graph_outgoing(graph) == self@.incoming);

        let ghost mut keys: Seq<u32> = Seq::empty();
        let nodes: Keys<u32, Symbol> = self.symbols.keys();
        let ghost all = nodes.remaining().unref();
        for node in iter: nodes
            invariant
                self.wf(),
                graph_outgoing(graph) == self@.incoming,
                iter.seq().unref() == all,
                keys == all.take(iter.index()),
                all.to_set() == self@.symbols.dom(),
                all.no_duplicates(),
                ret@.len() == keys.len(),
                forall|i: int|
                    0 <= i < keys.len() ==> (#[trigger] ret@[i])@ == self@.component(keys[i]),
        {
            proof {
                assert(all[iter.index()] == *node);
                assert(all.to_set().contains(*node)) by {
                    assert(all.contains(*node));
                }
                self@.lemma_component_nonempty(*node);
                keys = keys.push(*node);
                assert(keys =~= all.take(iter.index() + 1));
            }
            let connected: Vec<Symbol> = self.component(&graph, *node);
            if !connected.is_empty() {
                ret.push(connected);
            }
        }
        assert(all.take(all.len() as int) =~= all);
        assert(self@.are_components(keys, ret@));
        ret
    }

    /// The symbol of `node`, and then those that it depends on, found on the reversed graph.
    fn component(&self, graph: &DiGraph<(), Context, u32>, node: u32) -> (connected: Vec<Symbol>)
        requires
            self.wf(),
            graph_outgoing(*graph) == self@.incoming,
            self@.symbols.contains_key(node),
        ensures
            connected@ == self@.component(node),
    {
        let mut connected: Vec<Symbol> = Vec::new();
        let ghost mut order: Seq<u32> = Seq::empty();
        let ghost all = component_order(self@.incoming, node);
        let mut dfs: Dfs<NodeIndex<u32>, FixedBitSet> = new_dfs(graph, node);
        proof {
            lemma_ends_in_range(self@.incoming);
            assert(self@.symbols_of(order) =~= Seq::empty());
            assert(all =~= order + dfs_order(self@.incoming, dfs_stack(dfs), dfs_visited(dfs)));
        }
        loop
            invariant
                self.wf(),
                graph_outgoing(*graph) == self@.incoming,
                crate::dag::ends_in_range(self@.incoming),
                dfs_visited(dfs).len() == self@.incoming.len(),
                stack_in_range(dfs_stack(dfs), dfs_visited(dfs)),
                all == order + dfs_order(self@.incoming, dfs_stack(dfs), dfs_visited(dfs)),
                connected@ == self@.symbols_of(order),
            ensures
                order == all,
            decreases unvisited_count(dfs_visited(dfs)),
        {
            let ghost stack = dfs_stack(dfs);
            let ghost visited = dfs_visited(dfs);
            match next_dfs(&mut dfs, graph) {
                Some(index) => {
                    proof {
                        let k = choose|k: int|
                            {
                                &&& #[trigger] is_next_place(stack, visited, k)
                                &&& index == stack[k]
                                &&& dfs_visited(dfs) == visited.update(index as int, true)
                                &&& dfs_stack(dfs) == stack.take(k) + crate::dag::unvisited(
                                    crate::dag::ends(self@.incoming[index as int]),
                                    dfs_visited(dfs),
                                )
                            };
                        lemma_next_place_unique(stack, visited, k);
                        lemma_stack_after(self@.incoming, stack, visited);
                        lemma_visit_decreases(visited, index as int);
                        assert(dfs_stack(dfs) == stack_after(self@.incoming, stack, visited));
                        self@.lemma_symbols_of_push(order, index);
                        order = order.push(index);
                        assert(all =~= order + dfs_order(
                            self@.incoming,
                            dfs_stack(dfs),
                            dfs_visited(dfs),
                        ));
                    }
                    if self.paths.contains_key(&index) {
                        assert(self@.paths.dom().contains(index));
                        let symbol: Symbol = self.get_symbol(index);
                        connected.push(symbol);
                    }
                },
                None => {
                    assert(order =~= all);
                    break;
                },
            }
        }
        connected
    }
}

} // verus!
