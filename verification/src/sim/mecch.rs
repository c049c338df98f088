//! Contexts built top-down: for each node, a depth-first walk along the
//! metapath collects the nodes that its instances visit.
use vstd::prelude::*;
use crate::graph::HeteroGraph;
use crate::node_set::{NodeKey, NodeSet};
use crate::node_types::NodeLayer;
use crate::sim::{
    first_rows, has_step, lemma_reach_row_defined_at, lemma_take_contains, reach, reach_defined, reach_row_defined,
    reach_union, row_keys, BuildContextFn, check_reach_defined_everywhere, reach_defined_everywhere,
};

verus! {

/// Builds contexts top-down.
pub struct MecchBuildContextFn;

/// The context of every node of the first matrix of a metapath: the nodes
/// that the metapath's instances starting there visit.
pub fn build_context<NodeType: NodeLayer>(hetero_graph: &HeteroGraph, metapath: &[NodeType]) -> (r:
    Vec<NodeSet>)
    requires
        reach_defined_everywhere(*hetero_graph, metapath@),
    ensures
        r@.len() == first_rows(*hetero_graph, metapath@).len(),
        forall|s: int|
            0 <= s < r@.len() ==> (#[trigger] r@[s])@ == reach(*hetero_graph, metapath@, s),
{
    let sub_graph = hetero_graph.get(&metapath[0].name(), &metapath[1].name()).unwrap();
    let rows = sub_graph.rows();
    let mut context: Vec<NodeSet> = Vec::new();
    for i in 0..rows
        invariant
            rows == first_rows(*hetero_graph, metapath@).len(),
            forall|s: int|
                0 <= s < rows ==> #[trigger] reach_defined(*hetero_graph, metapath@, s),
            context@.len() == i,
            forall|s: int|
                0 <= s < i ==> (#[trigger] context@[s])@ == reach(*hetero_graph, metapath@, s),
    {
        let mut current_set = NodeSet::new();
        build_context_for_single_node(hetero_graph, metapath, &mut current_set, i);
        assert(current_set@ =~= reach(*hetero_graph, metapath@, i as int));
        context.push(current_set);
    }
    context
}

/// Adds to `current_set` the nodes that the instances of `metapath` starting
/// at `current_node` visit.
pub fn build_context_for_single_node<NodeType: NodeLayer>(
    hetero_graph: &HeteroGraph,
    metapath: &[NodeType],
    current_set: &mut NodeSet,
    current_node: usize,
)
    requires
        reach_defined(*hetero_graph, metapath@, current_node as int),
    ensures
        final(current_set)@ == old(current_set)@.union(
            reach(*hetero_graph, metapath@, current_node as int),
        ),
    decreases metapath@.len(),
{
    let ghost g = *hetero_graph;
    let ghost mp = metapath@;
    let len = metapath.len();
    let sub_graph = hetero_graph.get(&metapath[0].name(), &metapath[1].name()).unwrap();
    let code0 = metapath[0].code();
    let ghost start = current_set@;
    if len == 2 {
        let code1 = metapath[1].code();
        let row_vec = sub_graph.row(current_node).unwrap();
        let ghost row = row_vec@;
        let n = row_vec.len();
        for j in 0..n
            invariant
                n == row.len(),
                row == row_vec@,
                current_set@ == start.union(row_keys(code1, row.take(j as int))),
        {
            current_set.insert((code1, row_vec[j]));
            assert forall|x: u32|
                row.take(j + 1).contains(x) <==> (row.take(j as int).contains(x) || x
                    == row[j as int]) by {
                lemma_take_contains(row, j as int, x);
            }
            assert(current_set@ =~= start.union(row_keys(code1, row.take(j + 1))));
        }
        assert(row.take(n as int) =~= row);
        current_set.insert((code0, current_node as u32));
        assert(current_set@ =~= start.union(reach(g, mp, current_node as int)));
    } else {
        match sub_graph.row(current_node) {
            Some(node_vec) => {
                let rest = &metapath[1..len];
                let ghost rest_mp = rest@;
                assert(rest_mp =~= mp.drop_first());
                let ghost row = node_vec@;
                let n = node_vec.len();
                assert(row.take(0) =~= Seq::<u32>::empty());
                for j in 0..n
                    invariant
                        n == row.len(),
                        row == node_vec@,
                        rest_mp == rest@,
                        g == *hetero_graph,
                        rest@.len() == len - 1,
                        len == metapath@.len(),
                        reach_row_defined(g, rest_mp, row),
                        current_set@ == start.union(reach_union(g, rest_mp, row.take(j as int))),
                {
                    assert(row.take(j + 1).drop_last() =~= row.take(j as int));
                    proof {
                        lemma_reach_row_defined_at(g, rest_mp, row, j as int);
                    }
                    build_context_for_single_node(
                        hetero_graph,
                        rest,
                        current_set,
                        node_vec[j] as usize,
                    );
                    assert(current_set@ =~= start.union(reach_union(g, rest_mp, row.take(j + 1))));
                }
                assert(row.take(n as int) =~= row);
            },
            None => {},
        }
        current_set.insert((code0, current_node as u32));
        assert(current_set@ =~= start.union(reach(g, mp, current_node as int)));
    }
}

/// Adding a node's reach to a set, as `build_context_for_single_node` does,
/// is idempotent and order-independent: doing it twice for a node leaves the
/// set of doing it once, and doing it for two nodes gives the same set in
/// either order.
pub proof fn lemma_single_node_updates_commute<T: NodeLayer>(
    g: HeteroGraph,
    mp: Seq<T>,
    set: Set<NodeKey>,
    v: int,
    w: int,
)
    ensures
        set.union(reach(g, mp, v)).union(reach(g, mp, v)) == set.union(reach(g, mp, v)),
        set.union(reach(g, mp, v)).union(reach(g, mp, w)) == set.union(reach(g, mp, w)).union(
            reach(g, mp, v),
        ),
{
    assert(set.union(reach(g, mp, v)).union(reach(g, mp, v)) =~= set.union(reach(g, mp, v)));
    assert(set.union(reach(g, mp, v)).union(reach(g, mp, w)) =~= set.union(reach(g, mp, w)).union(
        reach(g, mp, v),
    ));
}

impl<NodeType: NodeLayer> BuildContextFn<NodeType> for MecchBuildContextFn {
    open spec fn can_build(graph: HeteroGraph, metapath: Seq<NodeType>) -> bool {
        reach_defined_everywhere(graph, metapath)
    }

    open spec fn context_of(graph: HeteroGraph, metapath: Seq<NodeType>, s: int) -> Set<NodeKey> {
        reach(graph, metapath, s)
    }

    fn check_can_build(graph: &HeteroGraph, metapath: &[NodeType]) -> (r: bool) {
        check_reach_defined_everywhere(graph, metapath)
    }

    fn build_context(graph: &HeteroGraph, metapath: &[NodeType]) -> (r: Vec<NodeSet>) {
        build_context(graph, metapath)
    }
}

} // verus!
