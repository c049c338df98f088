//! Contexts built bottom-up: the contexts along a metapath's remainder are
//! built first, and each node's context is the union of its neighbours'.
use vstd::prelude::*;
use crate::graph::HeteroGraph;
use crate::node_set::{NodeKey, NodeSet};
use crate::node_types::NodeLayer;
use crate::sim::{
    check_path_in_graph, design_context, design_union, first_rows, has_step,
    lemma_path_in_graph_rest, lemma_take_contains, path_in_graph, row_keys, BuildContextFn,
};

verus! {

/// Builds contexts bottom-up.
pub struct DesignBuildContextFn;

/// The context of every node of the first matrix of a metapath, built from
/// the contexts of the metapath's remainder.
pub fn build_context<NodeType: NodeLayer>(hetero_graph: &HeteroGraph, metapath: &[NodeType]) -> (r:
    Vec<NodeSet>)
    requires
        path_in_graph(*hetero_graph, metapath@),
    ensures
        r@.len() == first_rows(*hetero_graph, metapath@).len(),
        forall|s: int|
            0 <= s < r@.len() ==> (#[trigger] r@[s])@ == design_context(
                *hetero_graph,
                metapath@,
                s,
            ),
    decreases metapath@.len(),
{
    let ghost g = *hetero_graph;
    let ghost mp = metapath@;
    let len = metapath.len();
    assert(has_step(g, mp, 0));
    let sub_graph = hetero_graph.get(&metapath[0].name(), &metapath[1].name()).unwrap();
    let rows = sub_graph.rows();
    let ghost rows_spec = first_rows(g, mp);
    let code0 = metapath[0].code();
    let code1 = metapath[1].code();
    let mut context: Vec<NodeSet> = Vec::new();
    if len == 2 {
        for source_id in 0..rows
            invariant
                rows == rows_spec.len(),
                rows_spec == sub_graph.rows_spec(),
                rows_spec == first_rows(g, mp),
                mp == metapath@,
                g == *hetero_graph,
                len == 2,
                mp.len() == 2,
                code0 == mp[0].code_spec(),
                code1 == mp[1].code_spec(),
                context@.len() == source_id,
                forall|s: int|
                    0 <= s < source_id ==> (#[trigger] context@[s])@ == design_context(g, mp, s),
        {
            let row_vec = sub_graph.row(source_id).unwrap();
            let ghost row = row_vec@;
            let mut current_set = NodeSet::new();
            let n = row_vec.len();
            for j in 0..n
                invariant
                    n == row.len(),
                    row == row_vec@,
                    current_set@ == row_keys(code1, row.take(j as int)),
            {
                current_set.insert((code1, row_vec[j]));
                assert forall|x: u32|
                    row.take(j + 1).contains(x) <==> (row.take(j as int).contains(x) || x
                        == row[j as int]) by {
                    lemma_take_contains(row, j as int, x);
                }
                assert(current_set@ =~= row_keys(code1, row.take(j + 1)));
            }
            assert(row.take(n as int) =~= row);
            current_set.insert((code0, source_id as u32));
            assert(current_set@ =~= design_context(g, mp, source_id as int));
            context.push(current_set);
        }
    } else {
        let rest = &metapath[1..len];
        let ghost rest_mp = rest@;
        assert(rest_mp =~= mp.drop_first());
        proof {
            lemma_path_in_graph_rest(g, mp);
        }
        let previous_context = build_context(hetero_graph, rest);
        let prev_len = previous_context.len();
        for source_id in 0..rows
            invariant
                rows == rows_spec.len(),
                rows_spec == sub_graph.rows_spec(),
                rows_spec == first_rows(g, mp),
                mp == metapath@,
                g == *hetero_graph,
                mp.len() > 2,
                rest_mp == mp.drop_first(),
                code0 == mp[0].code_spec(),
                code1 == mp[1].code_spec(),
                prev_len == previous_context@.len(),
                prev_len == first_rows(g, rest_mp).len(),
                forall|s: int|
                    0 <= s < prev_len ==> (#[trigger] previous_context@[s])@ == design_context(
                        g,
                        rest_mp,
                        s,
                    ),
                context@.len() == source_id,
                forall|s: int|
                    0 <= s < source_id ==> (#[trigger] context@[s])@ == design_context(g, mp, s),
        {
            let row_vec = sub_graph.row(source_id).unwrap();
            let ghost row = row_vec@;
            let mut new_context = NodeSet::new();
            let n = row_vec.len();
            assert(design_union(g, rest_mp, row.take(0)) =~= Set::empty());
            for j in 0..n
                invariant
                    n == row.len(),
                    row == row_vec@,
                    rest_mp[0] == mp[1],
                    code1 == mp[1].code_spec(),
                    prev_len == previous_context@.len(),
                    prev_len == first_rows(g, rest_mp).len(),
                    forall|s: int|
                        0 <= s < prev_len ==> (#[trigger] previous_context@[s])@ == design_context(
                            g,
                            rest_mp,
                            s,
                        ),
                    new_context@ == design_union(g, rest_mp, row.take(j as int)),
            {
                let neighbor = row_vec[j];
                assert(row.take(j + 1).drop_last() =~= row.take(j as int));
                if (neighbor as usize) < prev_len {
                    new_context.extend_with(&previous_context[neighbor as usize]);
                } else {
                    new_context.insert((code1, neighbor));
                }
                assert(new_context@ =~= design_union(g, rest_mp, row.take(j + 1)));
            }
            assert(row.take(n as int) =~= row);
            new_context.insert((code0, source_id as u32));
            assert(new_context@ =~= design_context(g, mp, source_id as int));
            context.push(new_context);
        }
    }
    context
}

impl<NodeType: NodeLayer> BuildContextFn<NodeType> for DesignBuildContextFn {
    open spec fn can_build(graph: HeteroGraph, metapath: Seq<NodeType>) -> bool {
        path_in_graph(graph, metapath)
    }

    open spec fn context_of(graph: HeteroGraph, metapath: Seq<NodeType>, s: int) -> Set<NodeKey> {
        design_context(graph, metapath, s)
    }

    fn check_can_build(graph: &HeteroGraph, metapath: &[NodeType]) -> (r: bool) {
        check_path_in_graph(graph, metapath)
    }

    fn build_context(graph: &HeteroGraph, metapath: &[NodeType]) -> (r: Vec<NodeSet>) {
        build_context(graph, metapath)
    }
}

} // verus!
