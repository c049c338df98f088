//! The contexts of metapath-based graph neural networks: for each node, the
//! set of typed nodes that the instances of a metapath starting there visit.
use vstd::prelude::*;
use crate::graph::HeteroGraph;
use crate::node_set::{NodeKey, NodeSet};
use crate::node_types::{DblpNodeType, ImdbNodeType, LastFmNodeType, NodeLayer};




pub mod design;
pub mod mecch;
pub mod design_agg;

verus! {

/// The rows of the matrix for the first step of a metapath.
pub open spec fn first_rows<T: NodeLayer>(g: HeteroGraph, mp: Seq<T>) -> Seq<Seq<u32>> {
    g.adjacency(mp[0].name_spec(), mp[1].name_spec())
}

/// The graph has a matrix for step `i` of the metapath, from its `i`-th type
/// to the next.
pub open spec fn has_step<T: NodeLayer>(g: HeteroGraph, mp: Seq<T>, i: int) -> bool {
    g.has_edge_type(mp[i].name_spec(), mp[i + 1].name_spec())
}

/// The metapath has two types or more, and the graph has a matrix for each
/// of its steps.
pub open spec fn path_in_graph<T: NodeLayer>(g: HeteroGraph, mp: Seq<T>) -> bool {
    &&& mp.len() >= 2
    &&& forall|i: int| 0 <= i < mp.len() - 1 ==> #[trigger] has_step(g, mp, i)
}

/// The remainder of a metapath of three types or more is in the graph where
/// the metapath is.
pub proof fn lemma_path_in_graph_rest<T: NodeLayer>(g: HeteroGraph, mp: Seq<T>)
    requires
        path_in_graph(g, mp),
        mp.len() > 2,
    ensures
        path_in_graph(g, mp.drop_first()),
        has_step(g, mp, 0),
{
    let rest = mp.drop_first();
    assert forall|i: int| 0 <= i < rest.len() - 1 implies #[trigger] has_step(g, rest, i) by {
        assert(has_step(g, mp, i + 1));
        assert(rest[i] == mp[i + 1]);
        assert(rest[i + 1] == mp[i + 1 + 1]);
    }
    assert(has_step(g, mp, 0));
}

/// A row with one more node lists the nodes of the shorter row and that node.
pub proof fn lemma_take_contains<A>(row: Seq<A>, j: int, x: A)
    requires
        0 <= j < row.len(),
    ensures
        row.take(j + 1).contains(x) <==> (row.take(j).contains(x) || x == row[j]),
{
    if row.take(j + 1).contains(x) {
        let w = choose|w: int| 0 <= w < j + 1 && #[trigger] row.take(j + 1)[w] == x;
        if w < j {
            assert(row.take(j)[w] == x);
        }
    }
    if row.take(j).contains(x) {
        let w = choose|w: int| 0 <= w < j && #[trigger] row.take(j)[w] == x;
        assert(row.take(j + 1)[w] == x);
    }
    if x == row[j] {
        assert(row.take(j + 1)[j] == x);
    }
}

/// The nodes of type `code` whose ids a row lists.
pub open spec fn row_keys(code: u32, row: Seq<u32>) -> Set<NodeKey> {
    Set::new(|k: NodeKey| k.0 == code && row.contains(k.1))
}

/// The context of node `s` of the first type of a metapath, built from the
/// contexts of the metapath's remainder: the node itself, and for each
/// neighbour, its context along the remainder, or the neighbour alone where
/// the remainder's first matrix has no row for it.
pub open spec fn design_context<T: NodeLayer>(g: HeteroGraph, mp: Seq<T>, s: int) -> Set<NodeKey>
    decreases mp.len(), 0nat,
{
    if mp.len() < 2 {
        Set::empty()
    } else {
        let rows = first_rows(g, mp);
        let own = set![(mp[0].code_spec(), s as u32)];
        if mp.len() == 2 {
            row_keys(mp[1].code_spec(), rows[s]).union(own)
        } else {
            design_union(g, mp.drop_first(), rows[s]).union(own)
        }
    }
}

/// The union, over the nodes of a row, of their contexts along `mp`, a node
/// without a row in `mp`'s first matrix standing for itself.
pub open spec fn design_union<T: NodeLayer>(g: HeteroGraph, mp: Seq<T>, row: Seq<u32>) -> Set<
    NodeKey,
>
    decreases mp.len(), row.len(),
{
    if row.len() == 0 {
        Set::empty()
    } else {
        let nb = row.last();
        let part = if (nb as int) < first_rows(g, mp).len() {
            design_context(g, mp, nb as int)
        } else {
            set![(mp[0].code_spec(), nb)]
        };
        design_union(g, mp, row.drop_last()).union(part)
    }
}

/// The nodes that the instances of a metapath starting at node `s` visit,
/// `s` included.
pub open spec fn reach<T: NodeLayer>(g: HeteroGraph, mp: Seq<T>, s: int) -> Set<NodeKey>
    decreases mp.len(), 0nat,
{
    if mp.len() < 2 {
        Set::empty()
    } else {
        let rows = first_rows(g, mp);
        let own = set![(mp[0].code_spec(), s as u32)];
        if mp.len() == 2 {
            row_keys(mp[1].code_spec(), rows[s]).union(own)
        } else if 0 <= s < rows.len() {
            reach_union(g, mp.drop_first(), rows[s]).union(own)
        } else {
            own
        }
    }
}

/// The union, over the nodes of a row, of what the instances of `mp`
/// starting there visit.
pub open spec fn reach_union<T: NodeLayer>(g: HeteroGraph, mp: Seq<T>, row: Seq<u32>) -> Set<
    NodeKey,
>
    decreases mp.len(), row.len(),
{
    if row.len() == 0 {
        Set::empty()
    } else {
        reach_union(g, mp, row.drop_last()).union(reach(g, mp, row.last() as int))
    }
}

/// Following the instances of a metapath from node `s` reads only what
/// exists: each step taken has its matrix in the graph, and the last step
/// starts inside its matrix.
pub open spec fn reach_defined<T: NodeLayer>(g: HeteroGraph, mp: Seq<T>, s: int) -> bool
    decreases mp.len(), 0nat,
{
    &&& mp.len() >= 2
    &&& g.has_edge_type(mp[0].name_spec(), mp[1].name_spec())
    &&& {
        let rows = first_rows(g, mp);
        if mp.len() == 2 {
            0 <= s < rows.len()
        } else {
            0 <= s < rows.len() ==> reach_row_defined(g, mp.drop_first(), rows[s])
        }
    }
}

/// Following the instances of `mp` from each node of a row reads only what
/// exists.
pub open spec fn reach_row_defined<T: NodeLayer>(g: HeteroGraph, mp: Seq<T>, row: Seq<u32>) -> bool
    decreases mp.len(), row.len(),
{
    row.len() == 0 || (reach_row_defined(g, mp, row.drop_last()) && reach_defined(
        g,
        mp,
        row.last() as int,
    ))
}

/// Both ways of building contexts apply: every step of the metapath has its
/// matrix, and following the metapath from any node of its first matrix
/// reads only what exists.
pub open spec fn contexts_buildable<T: NodeLayer>(g: HeteroGraph, mp: Seq<T>) -> bool {
    &&& path_in_graph(g, mp)
    &&& forall|s: int| 0 <= s < first_rows(g, mp).len() ==> #[trigger] reach_defined(g, mp, s)
}

/// The context built from the contexts of the metapath's remainder is the set
/// of nodes that the metapath's instances visit: both ways of building
/// contexts agree, wherever following the metapath reads only what exists.
pub proof fn lemma_design_context_is_reach<T: NodeLayer>(g: HeteroGraph, mp: Seq<T>, s: int)
    requires
        path_in_graph(g, mp),
        0 <= s < first_rows(g, mp).len(),
        reach_defined(g, mp, s),
    ensures
        design_context(g, mp, s) == reach(g, mp, s),
    decreases mp.len(), 0nat,
{
    if mp.len() > 2 {
        let rest = mp.drop_first();
        lemma_path_in_graph_rest(g, mp);
        lemma_design_union_is_reach_union(g, rest, first_rows(g, mp)[s]);
    }
}

/// Row by row, the union of the contexts built from the remainder's contexts
/// is the union of the sets of visited nodes.
pub proof fn lemma_design_union_is_reach_union<T: NodeLayer>(
    g: HeteroGraph,
    mp: Seq<T>,
    row: Seq<u32>,
)
    requires
        path_in_graph(g, mp),
        reach_row_defined(g, mp, row),
    ensures
        design_union(g, mp, row) == reach_union(g, mp, row),
    decreases mp.len(), row.len(),
{
    if row.len() > 0 {
        lemma_design_union_is_reach_union(g, mp, row.drop_last());
        let nb = row.last();
        if (nb as int) < first_rows(g, mp).len() {
            lemma_design_context_is_reach(g, mp, nb as int);
        } else {
            assert(reach_defined(g, mp, nb as int));
            assert(mp.len() > 2);
            assert(((nb as int) as u32) == nb);
            assert(reach(g, mp, nb as int) == set![(mp[0].code_spec(), nb)]);
        }
    }
}

proof fn lemma_reach_row_defined_from_all<T: NodeLayer>(g: HeteroGraph, mp: Seq<T>, row: Seq<u32>)
    requires
        forall|i: int| 0 <= i < row.len() ==> reach_defined(g, mp, #[trigger] row[i] as int),
    ensures
        reach_row_defined(g, mp, row),
    decreases row.len(),
{
    if row.len() > 0 {
        let init = row.drop_last();
        assert forall|i: int| 0 <= i < init.len() implies reach_defined(
            g,
            mp,
            #[trigger] init[i] as int,
        ) by {
            assert(init[i] == row[i]);
        }
        lemma_reach_row_defined_from_all(g, mp, init);
        assert(reach_defined(g, mp, row[row.len() - 1] as int));
    }
}

pub proof fn lemma_reach_row_defined_at<T: NodeLayer>(g: HeteroGraph, mp: Seq<T>, row: Seq<u32>, i: int)
    requires
        reach_row_defined(g, mp, row),
        0 <= i < row.len(),
    ensures
        reach_defined(g, mp, row[i] as int),
    decreases row.len(),
{
    if i < row.len() - 1 {
        lemma_reach_row_defined_at(g, mp, row.drop_last(), i);
    }
}

/// Whether every step of the metapath has its matrix in the graph.
pub fn check_path_in_graph<NodeType: NodeLayer>(g: &HeteroGraph, metapath: &[NodeType]) -> (r: bool)
    ensures
        r == path_in_graph(*g, metapath@),
{
    let len = metapath.len();
    if len < 2 {
        return false;
    }
    for i in 0..len - 1
        invariant
            len == metapath@.len(),
            len >= 2,
            forall|j: int| 0 <= j < i ==> #[trigger] has_step(*g, metapath@, j),
    {
        if g.get(&metapath[i].name(), &metapath[i + 1].name()).is_none() {
            assert(!has_step(*g, metapath@, i as int));
            return false;
        }
    }
    true
}

/// Whether following the instances of the metapath from node `s` reads only
/// what exists.
pub fn check_reach_defined<NodeType: NodeLayer>(
    g: &HeteroGraph,
    metapath: &[NodeType],
    s: usize,
) -> (r: bool)
    ensures
        r == reach_defined(*g, metapath@, s as int),
    decreases metapath@.len(),
{
    let len = metapath.len();
    if len < 2 {
        return false;
    }
    let sub_graph = match g.get(&metapath[0].name(), &metapath[1].name()) {
        Some(m) => m,
        None => {
            return false;
        },
    };
    if len == 2 {
        return s < sub_graph.rows();
    }
    match sub_graph.row(s) {
        None => true,
        Some(row) => {
            let rest = &metapath[1..len];
            assert(rest@ =~= metapath@.drop_first());
            let n = row.len();
            assert(reach_defined(*g, metapath@, s as int) == reach_row_defined(*g, rest@, row@));
            for j in 0..n
                invariant
                    n == row@.len(),
                    reach_defined(*g, metapath@, s as int) == reach_row_defined(*g, rest@, row@),
                    rest@.len() == len - 1,
                    len == metapath@.len(),
                    forall|m: int| 0 <= m < j ==> reach_defined(*g, rest@, #[trigger] row@[m] as int),
            {
                if !check_reach_defined(g, rest, row[j] as usize) {
                    proof {
                        if reach_row_defined(*g, rest@, row@) {
                            lemma_reach_row_defined_at(*g, rest@, row@, j as int);
                        }
                    }
                    return false;
                }
            }
            proof {
                lemma_reach_row_defined_from_all(*g, rest@, row@);
            }
            true
        },
    }
}

/// Following the instances of the metapath from any node of its first
/// matrix reads only what exists.
pub open spec fn reach_defined_everywhere<T: NodeLayer>(g: HeteroGraph, mp: Seq<T>) -> bool {
    &&& mp.len() >= 2
    &&& g.has_edge_type(mp[0].name_spec(), mp[1].name_spec())
    &&& forall|s: int| 0 <= s < first_rows(g, mp).len() ==> #[trigger] reach_defined(g, mp, s)
}

/// Whether following the instances of the metapath from any node of its
/// first matrix reads only what exists.
pub fn check_reach_defined_everywhere<NodeType: NodeLayer>(
    g: &HeteroGraph,
    metapath: &[NodeType],
) -> (r: bool)
    ensures
        r == reach_defined_everywhere(*g, metapath@),
{
    if metapath.len() < 2 {
        return false;
    }
    let rows = match g.get(&metapath[0].name(), &metapath[1].name()) {
        Some(m) => m.rows(),
        None => {
            return false;
        },
    };
    for s in 0..rows
        invariant
            rows == first_rows(*g, metapath@).len(),
            metapath@.len() >= 2,
            g.has_edge_type(metapath@[0].name_spec(), metapath@[1].name_spec()),
            forall|t: int| 0 <= t < s ==> #[trigger] reach_defined(*g, metapath@, t),
    {
        if !check_reach_defined(g, metapath, s) {
            return false;
        }
    }
    true
}

/// Whether both ways of building contexts apply to the metapath.
pub fn check_contexts_buildable<NodeType: NodeLayer>(g: &HeteroGraph, metapath: &[NodeType]) -> (r:
    bool)
    ensures
        r == contexts_buildable(*g, metapath@),
{
    let on_path = check_path_in_graph(g, metapath);
    let everywhere = check_reach_defined_everywhere(g, metapath);
    proof {
        if on_path {
            assert(has_step(*g, metapath@, 0));
        }
    }
    on_path && everywhere
}

/// The feature size of a node type.
pub trait NodeTypeFeatureSize {
    fn feature_size(&self) -> (r: usize)
        default_ensures
            r == 128,
    {
        128
    }
}

impl NodeTypeFeatureSize for DblpNodeType {
    fn feature_size(&self) -> (r: usize)
        ensures
            r == 128,
    {
        128
    }
}

impl NodeTypeFeatureSize for ImdbNodeType {
    fn feature_size(&self) -> (r: usize)
        ensures
            r == 128,
    {
        128
    }
}

impl NodeTypeFeatureSize for LastFmNodeType {
    fn feature_size(&self) -> (r: usize)
        ensures
            r == 128,
    {
        128
    }
}

/// Walk `w` takes step `i` of the metapath: its `i`-th node has a row in the
/// step's matrix, and that row lists its next node.
pub open spec fn walk_steps<T: NodeLayer>(g: HeteroGraph, mp: Seq<T>, w: Seq<u32>, i: int) -> bool {
    let rows = g.adjacency(mp[i].name_spec(), mp[i + 1].name_spec());
    &&& (w[i] as int) < rows.len()
    &&& rows[w[i] as int].contains(w[i + 1])
}

/// `w` is a walk along the first `w.len()` types of the metapath: each of its
/// nodes after the first is listed in the row of the node before it, in the
/// matrix of that step.
pub open spec fn follows<T: NodeLayer>(g: HeteroGraph, mp: Seq<T>, w: Seq<u32>) -> bool {
    &&& 1 <= w.len() <= mp.len()
    &&& forall|i: int| 0 <= i < w.len() - 1 ==> #[trigger] walk_steps(g, mp, w, i)
}

/// Node `x` lies on a walk along the metapath from node `s`: it is the `i`-th
/// node of such a walk, typed by the metapath's `i`-th type.
pub open spec fn on_walk_from<T: NodeLayer>(g: HeteroGraph, mp: Seq<T>, s: u32, x: NodeKey) -> bool {
    exists|w: Seq<u32>, i: int|
        #![trigger follows(g, mp, w), w[i]]
        follows(g, mp, w) && w[0] == s && 0 <= i < w.len() && x == (mp[i].code_spec(), w[i])
}

proof fn lemma_follows_rest<T: NodeLayer>(g: HeteroGraph, mp: Seq<T>, w: Seq<u32>)
    requires
        mp.len() > 2,
        follows(g, mp, w),
        w.len() >= 2,
    ensures
        follows(g, mp.drop_first(), w.drop_first()),
{
    let rest = mp.drop_first();
    let v = w.drop_first();
    assert forall|i: int| 0 <= i < v.len() - 1 implies #[trigger] walk_steps(g, rest, v, i) by {
        assert(walk_steps(g, mp, w, i + 1));
        assert(rest[i] == mp[i + 1] && rest[i + 1] == mp[i + 2]);
        assert(v[i] == w[i + 1] && v[i + 1] == w[i + 2]);
    }
}

proof fn lemma_follows_cons<T: NodeLayer>(g: HeteroGraph, mp: Seq<T>, s: u32, v: Seq<u32>)
    requires
        mp.len() > 2,
        follows(g, mp.drop_first(), v),
        (s as int) < first_rows(g, mp).len(),
        first_rows(g, mp)[s as int].contains(v[0]),
    ensures
        follows(g, mp, seq![s] + v),
        (seq![s] + v)[0] == s,
        forall|i: int| 0 <= i < v.len() ==> (seq![s] + v)[i + 1] == v[i],
{
    let rest = mp.drop_first();
    let w = seq![s] + v;
    assert forall|i: int| 0 <= i < w.len() - 1 implies #[trigger] walk_steps(g, mp, w, i) by {
        if i == 0 {
            assert(w[0] == s && w[1] == v[0]);
        } else {
            assert(walk_steps(g, rest, v, i - 1));
            assert(rest[i - 1] == mp[i] && rest[i] == mp[i + 1]);
            assert(w[i] == v[i - 1] && w[i + 1] == v[i]);
        }
    }
}

/// The context built bottom-up for a node of a metapath's first matrix is
/// exactly the set of nodes on the walks along the metapath from that node,
/// whatever the ids: a node belongs to it iff some walk from the node, over a
/// prefix of the metapath, reaches it at the matching type.
pub proof fn lemma_design_context_is_walk_nodes<T: NodeLayer>(
    g: HeteroGraph,
    mp: Seq<T>,
    s: u32,
    x: NodeKey,
)
    requires
        path_in_graph(g, mp),
        (s as int) < first_rows(g, mp).len(),
    ensures
        design_context(g, mp, s as int).contains(x) <==> on_walk_from(g, mp, s, x),
    decreases mp.len(),
{
    let rows = first_rows(g, mp);
    let row = rows[s as int];
    let own = (mp[0].code_spec(), s);
    assert(((s as int) as u32) == s);
    if design_context(g, mp, s as int).contains(x) {
        if x == own {
            let w = seq![s];
            assert(follows(g, mp, w));
            assert(w[0] == s && x == (mp[0].code_spec(), w[0]));
        } else if mp.len() == 2 {
            let w = seq![s, x.1];
            assert(walk_steps(g, mp, w, 0));
            assert(follows(g, mp, w));
            assert(x == (mp[1].code_spec(), w[1]));
        } else {
            let rest = mp.drop_first();
            lemma_path_in_graph_rest(g, mp);
            lemma_design_union_member(g, rest, row, x);
            let j = choose|j: int| 0 <= j < row.len() && #[trigger] node_part(g, rest, row[j]).contains(x);
            let c = row[j];
            assert(row.contains(c));
            assert(rest[0] == mp[1] && rest[1] == mp[2]);
            if (c as int) < first_rows(g, rest).len() {
                lemma_design_context_is_walk_nodes(g, rest, c, x);
                let (v, i) = choose|v: Seq<u32>, i: int|
                    #![trigger follows(g, rest, v), v[i]]
                    follows(g, rest, v) && v[0] == c && 0 <= i < v.len() && x == (rest[i].code_spec(), v[i]);
                lemma_follows_cons(g, mp, s, v);
                let w = seq![s] + v;
                assert(w[i + 1] == v[i]);
                assert(x == (mp[i + 1].code_spec(), w[i + 1]));
            } else {
                let w = seq![s, c];
                assert(walk_steps(g, mp, w, 0));
                assert(follows(g, mp, w));
                assert(x == (mp[1].code_spec(), w[1]));
            }
        }
    }
    if on_walk_from(g, mp, s, x) {
        let (w, i) = choose|w: Seq<u32>, i: int|
            #![trigger follows(g, mp, w), w[i]]
            follows(g, mp, w) && w[0] == s && 0 <= i < w.len() && x == (mp[i].code_spec(), w[i]);
        if i > 0 {
            assert(walk_steps(g, mp, w, 0));
            let c = w[1];
            if mp.len() == 2 {
                assert(i == 1);
                assert(row.contains(c));
            } else {
                let rest = mp.drop_first();
                lemma_path_in_graph_rest(g, mp);
                assert(rest[0] == mp[1] && rest[1] == mp[2]);
                let v = w.drop_first();
                lemma_follows_rest(g, mp, w);
                let j = choose|j: int| 0 <= j < row.len() && row[j] == c;
                if (c as int) < first_rows(g, rest).len() {
                    lemma_design_context_is_walk_nodes(g, rest, c, x);
                    assert(v[i - 1] == w[i]);
                    assert(rest[i - 1] == mp[i]);
                    assert(follows(g, rest, v) && v[0] == c && 0 <= i - 1 < v.len() && x == (
                        rest[i - 1].code_spec(),
                        v[i - 1],
                    ));
                    assert(node_part(g, rest, row[j]).contains(x));
                } else {
                    if i > 1 {
                        assert(walk_steps(g, mp, w, 1));
                        assert(false);
                    }
                    assert(node_part(g, rest, row[j]).contains(x));
                }
                lemma_design_union_member(g, rest, row, x);
            }
        }
    }
}

proof fn lemma_reach_union_member<T: NodeLayer>(g: HeteroGraph, mp: Seq<T>, row: Seq<u32>, x: NodeKey)
    ensures
        reach_union(g, mp, row).contains(x) <==> exists|j: int|
            0 <= j < row.len() && #[trigger] reach(g, mp, row[j] as int).contains(x),
    decreases row.len(),
{
    if row.len() > 0 {
        let init = row.drop_last();
        lemma_reach_union_member(g, mp, init, x);
        if reach_union(g, mp, row).contains(x) {
            if reach_union(g, mp, init).contains(x) {
                let j = choose|j: int| 0 <= j < init.len() && #[trigger] reach(g, mp, init[j] as int).contains(x);
                assert(init[j] == row[j]);
            } else {
                assert(reach(g, mp, row[row.len() - 1] as int).contains(x));
            }
        }
        if exists|j: int| 0 <= j < row.len() && #[trigger] reach(g, mp, row[j] as int).contains(x) {
            let j = choose|j: int| 0 <= j < row.len() && #[trigger] reach(g, mp, row[j] as int).contains(x);
            if j < row.len() - 1 {
                assert(init[j] == row[j]);
            }
        }
    }
}

/// The context built top-down for a node, wherever following the metapath
/// from it reads only what exists, is exactly the set of nodes on the walks
/// along the metapath from that node, whatever the ids: a node belongs to it
/// iff some walk from the node, over a prefix of the metapath, reaches it at
/// the matching type.
pub proof fn lemma_reach_is_walk_nodes<T: NodeLayer>(g: HeteroGraph, mp: Seq<T>, s: u32, x: NodeKey)
    requires
        reach_defined(g, mp, s as int),
    ensures
        reach(g, mp, s as int).contains(x) <==> on_walk_from(g, mp, s, x),
    decreases mp.len(),
{
    let rows = first_rows(g, mp);
    let own = (mp[0].code_spec(), s);
    assert(((s as int) as u32) == s);
    if reach(g, mp, s as int).contains(x) {
        if x == own {
            let w = seq![s];
            assert(follows(g, mp, w));
            assert(w[0] == s && x == (mp[0].code_spec(), w[0]));
        } else if mp.len() == 2 {
            let w = seq![s, x.1];
            assert(walk_steps(g, mp, w, 0));
            assert(follows(g, mp, w));
            assert(x == (mp[1].code_spec(), w[1]));
        } else {
            let row = rows[s as int];
            let rest = mp.drop_first();
            lemma_reach_union_member(g, rest, row, x);
            let j = choose|j: int| 0 <= j < row.len() && #[trigger] reach(g, rest, row[j] as int).contains(x);
            let c = row[j];
            assert(row.contains(c));
            assert(rest[0] == mp[1] && rest[1] == mp[2]);
            lemma_reach_row_defined_at(g, rest, row, j);
            lemma_reach_is_walk_nodes(g, rest, c, x);
            let (v, i) = choose|v: Seq<u32>, i: int|
                #![trigger follows(g, rest, v), v[i]]
                follows(g, rest, v) && v[0] == c && 0 <= i < v.len() && x == (rest[i].code_spec(), v[i]);
            lemma_follows_cons(g, mp, s, v);
            let w = seq![s] + v;
            assert(w[i + 1] == v[i]);
            assert(x == (mp[i + 1].code_spec(), w[i + 1]));
        }
    }
    if on_walk_from(g, mp, s, x) {
        let (w, i) = choose|w: Seq<u32>, i: int|
            #![trigger follows(g, mp, w), w[i]]
            follows(g, mp, w) && w[0] == s && 0 <= i < w.len() && x == (mp[i].code_spec(), w[i]);
        if i > 0 {
            assert(walk_steps(g, mp, w, 0));
            let c = w[1];
            let row = rows[s as int];
            if mp.len() == 2 {
                assert(i == 1);
                assert(row.contains(c));
            } else {
                let rest = mp.drop_first();
                assert(rest[0] == mp[1] && rest[1] == mp[2]);
                let v = w.drop_first();
                lemma_follows_rest(g, mp, w);
                let j = choose|j: int| 0 <= j < row.len() && row[j] == c;
                lemma_reach_row_defined_at(g, rest, row, j);
                lemma_reach_is_walk_nodes(g, rest, c, x);
                assert(v[i - 1] == w[i]);
                assert(rest[i - 1] == mp[i]);
                assert(follows(g, rest, v) && v[0] == c && 0 <= i - 1 < v.len() && x == (
                    rest[i - 1].code_spec(),
                    v[i - 1],
                ));
                assert(reach(g, rest, row[j] as int).contains(x));
                lemma_reach_union_member(g, rest, row, x);
            }
        }
    }
}

/// Step `i` of the metapath has no more columns than step `i + 1` has rows.
pub open spec fn step_fits<T: NodeLayer>(g: HeteroGraph, mp: Seq<T>, i: int) -> bool {
    g.subgraph_spec(mp[i].name_spec(), mp[i + 1].name_spec()).unwrap().cols_spec()
        <= step_row_count(g, mp, i + 1)
}

/// Every step of the metapath but the last has no more columns than the next
/// step has rows.
pub open spec fn steps_fit<T: NodeLayer>(g: HeteroGraph, mp: Seq<T>) -> bool {
    forall|i: int| 0 <= i < mp.len() - 2 ==> #[trigger] step_fits(g, mp, i)
}

/// In a well-formed graph whose matrices along a metapath fit together, the
/// instances of the metapath from a node read only what exists (on a single
/// step, from a node of its matrix).
pub proof fn lemma_fitting_steps_reach_defined<T: NodeLayer>(g: HeteroGraph, mp: Seq<T>, s: int)
    requires
        g.wf(),
        path_in_graph(g, mp),
        steps_fit(g, mp),
        mp.len() == 2 ==> 0 <= s < first_rows(g, mp).len(),
    ensures
        reach_defined(g, mp, s),
    decreases mp.len(),
{
    assert(has_step(g, mp, 0));
    let rows = first_rows(g, mp);
    if mp.len() > 2 && 0 <= s < rows.len() {
        let rest = mp.drop_first();
        lemma_path_in_graph_rest(g, mp);
        assert(steps_fit(g, rest)) by {
            assert forall|i: int| 0 <= i < rest.len() - 2 implies #[trigger] step_fits(g, rest, i) by {
                assert(step_fits(g, mp, i + 1));
                assert(rest[i] == mp[i + 1] && rest[i + 1] == mp[i + 2] && rest[i + 2] == mp[i + 3]);
            }
        }
        crate::graph::lemma_subgraph_wf(g, mp[0].name_spec(), mp[1].name_spec());
        assert(step_fits(g, mp, 0));
        assert(rest[0] == mp[1] && rest[1] == mp[2]);
        let row = rows[s];
        assert forall|j: int| 0 <= j < row.len() implies reach_defined(g, rest, #[trigger] row[j] as int) by {
            assert((row[j] as int) < g.subgraph_spec(mp[0].name_spec(), mp[1].name_spec()).unwrap().cols_spec());
            lemma_fitting_steps_reach_defined(g, rest, row[j] as int);
        }
        lemma_reach_row_defined_from_all(g, rest, row);
    }
}

/// In a well-formed graph whose matrices along a metapath fit together, the
/// top-down way of building contexts applies.
pub proof fn lemma_fitting_steps_reach_everywhere<T: NodeLayer>(g: HeteroGraph, mp: Seq<T>)
    requires
        g.wf(),
        path_in_graph(g, mp),
        steps_fit(g, mp),
    ensures
        reach_defined_everywhere(g, mp),
        contexts_buildable(g, mp),
{
    assert(has_step(g, mp, 0));
    assert forall|s: int| 0 <= s < first_rows(g, mp).len() implies #[trigger] reach_defined(g, mp, s) by {
        lemma_fitting_steps_reach_defined(g, mp, s);
    }
}

/// Both ways of building contexts agree on every node of a well-formed graph
/// whose matrices along the metapath fit together.
pub proof fn lemma_contexts_agree_when_steps_fit<T: NodeLayer>(g: HeteroGraph, mp: Seq<T>, s: int)
    requires
        g.wf(),
        path_in_graph(g, mp),
        steps_fit(g, mp),
        0 <= s < first_rows(g, mp).len(),
    ensures
        design_context(g, mp, s) == reach(g, mp, s),
{
    lemma_fitting_steps_reach_defined(g, mp, s);
    lemma_design_context_is_reach(g, mp, s);
}

/// What a node of a row adds to a union of contexts along `mp`: its context,
/// or the node alone where `mp`'s first matrix has no row for it.
pub open spec fn node_part<T: NodeLayer>(g: HeteroGraph, mp: Seq<T>, nb: u32) -> Set<NodeKey> {
    if (nb as int) < first_rows(g, mp).len() {
        design_context(g, mp, nb as int)
    } else {
        set![(mp[0].code_spec(), nb)]
    }
}

/// A union of contexts over a row holds exactly what the parts of the row's
/// nodes hold.
pub proof fn lemma_design_union_member<T: NodeLayer>(
    g: HeteroGraph,
    mp: Seq<T>,
    row: Seq<u32>,
    x: NodeKey,
)
    ensures
        design_union(g, mp, row).contains(x) <==> exists|j: int|
            0 <= j < row.len() && #[trigger] node_part(g, mp, row[j]).contains(x),
    decreases row.len(),
{
    if row.len() > 0 {
        let init = row.drop_last();
        lemma_design_union_member(g, mp, init, x);
        if design_union(g, mp, row).contains(x) {
            if design_union(g, mp, init).contains(x) {
                let j = choose|j: int| 0 <= j < init.len() && #[trigger] node_part(g, mp, init[j]).contains(x);
                assert(init[j] == row[j]);
            } else {
                assert(node_part(g, mp, row[row.len() - 1]).contains(x));
            }
        }
        if exists|j: int| 0 <= j < row.len() && #[trigger] node_part(g, mp, row[j]).contains(x) {
            let j = choose|j: int| 0 <= j < row.len() && #[trigger] node_part(g, mp, row[j]).contains(x);
            if j < row.len() - 1 {
                assert(init[j] == row[j]);
            }
        }
    }
}

/// The context of node `s` holds `s` itself.
pub proof fn lemma_design_context_has_source<T: NodeLayer>(g: HeteroGraph, mp: Seq<T>, s: u32)
    requires
        mp.len() >= 2,
    ensures
        design_context(g, mp, s as int).contains((mp[0].code_spec(), s)),
{
    assert(((s as int) as u32) == s);
}

/// Following a metapath further never drops a node from a context: the
/// context of a node along the first `k` types of a metapath is part of its
/// context along the whole metapath.
pub proof fn lemma_context_grows_with_metapath<T: NodeLayer>(
    g: HeteroGraph,
    mp: Seq<T>,
    k: int,
    s: int,
)
    requires
        2 <= k <= mp.len(),
        0 <= s < first_rows(g, mp).len(),
    ensures
        design_context(g, mp.take(k), s).subset_of(design_context(g, mp, s)),
    decreases mp.len(), 0nat,
{
    let short = mp.take(k);
    assert(short[0] == mp[0] && short[1] == mp[1]);
    let rows = first_rows(g, mp);
    if k == mp.len() {
        assert(short =~= mp);
    } else {
        let rest = mp.drop_first();
        let row = rows[s];
        assert forall|x: NodeKey| design_context(g, short, s).contains(x) implies design_context(
            g,
            mp,
            s,
        ).contains(x) by {
            if x != (mp[0].code_spec(), s as u32) {
                lemma_design_union_member(g, rest, row, x);
                if k == 2 {
                    let j = choose|j: int| 0 <= j < row.len() && row[j] == x.1;
                    assert(rest[0] == mp[1]);
                    if (row[j] as int) < first_rows(g, rest).len() {
                        lemma_design_context_has_source(g, rest, row[j]);
                    }
                    assert(node_part(g, rest, row[j]).contains(x));
                } else {
                    let rest_short = short.drop_first();
                    assert(rest_short =~= rest.take(k - 1));
                    lemma_design_union_member(g, rest_short, row, x);
                    let j = choose|j: int|
                        0 <= j < row.len() && #[trigger] node_part(g, rest_short, row[j]).contains(x);
                    assert(rest_short[0] == rest[0] && rest_short[1] == rest[1]);
                    if (row[j] as int) < first_rows(g, rest).len() {
                        lemma_context_grows_with_metapath(g, rest, k - 1, row[j] as int);
                    }
                    assert(node_part(g, rest, row[j]).contains(x));
                }
            }
        }
    }
}

/// Along every step of the metapath, `g2` has as many rows as `g1` and at
/// least the edges of `g1`.
pub open spec fn more_edges_along<T: NodeLayer>(g1: HeteroGraph, g2: HeteroGraph, mp: Seq<T>) -> bool {
    forall|i: int| 0 <= i < mp.len() - 1 ==> #[trigger] step_has_more_edges(g1, g2, mp, i)
}

/// Step `i` of the metapath has as many rows in `g2` as in `g1`, and each
/// row of `g2` lists at least the nodes of the same row of `g1`.
pub open spec fn step_has_more_edges<T: NodeLayer>(
    g1: HeteroGraph,
    g2: HeteroGraph,
    mp: Seq<T>,
    i: int,
) -> bool {
    let r1 = g1.adjacency(mp[i].name_spec(), mp[i + 1].name_spec());
    let r2 = g2.adjacency(mp[i].name_spec(), mp[i + 1].name_spec());
    &&& r1.len() == r2.len()
    &&& forall|s: int, c: u32| 0 <= s < r1.len() && #[trigger] r1[s].contains(c) ==> r2[s].contains(c)
}

/// Adding edges never drops a node from a context: where `g2` has the rows
/// of `g1` along a metapath, and at least its edges, each context in `g1` is
/// part of the same node's context in `g2`.
pub proof fn lemma_context_grows_with_edges<T: NodeLayer>(
    g1: HeteroGraph,
    g2: HeteroGraph,
    mp: Seq<T>,
    s: int,
)
    requires
        mp.len() >= 2,
        more_edges_along(g1, g2, mp),
        0 <= s < first_rows(g1, mp).len(),
    ensures
        design_context(g1, mp, s).subset_of(design_context(g2, mp, s)),
    decreases mp.len(), 0nat,
{
    assert(step_has_more_edges(g1, g2, mp, 0));
    let r1 = first_rows(g1, mp)[s];
    let r2 = first_rows(g2, mp)[s];
    if mp.len() > 2 {
        let rest = mp.drop_first();
        assert(more_edges_along(g1, g2, rest)) by {
            assert forall|i: int| 0 <= i < rest.len() - 1 implies #[trigger] step_has_more_edges(
                g1,
                g2,
                rest,
                i,
            ) by {
                assert(step_has_more_edges(g1, g2, mp, i + 1));
                assert(rest[i] == mp[i + 1] && rest[i + 1] == mp[i + 2]);
            }
        }
        assert(step_has_more_edges(g1, g2, rest, 0));
        assert forall|x: NodeKey| design_context(g1, mp, s).contains(x) implies design_context(
            g2,
            mp,
            s,
        ).contains(x) by {
            if x != (mp[0].code_spec(), s as u32) {
                lemma_design_union_member(g1, rest, r1, x);
                lemma_design_union_member(g2, rest, r2, x);
                let j = choose|j: int| 0 <= j < r1.len() && #[trigger] node_part(g1, rest, r1[j]).contains(x);
                let c = r1[j];
                assert(r1.contains(c));
                assert(r2.contains(c));
                let j2 = choose|j2: int| 0 <= j2 < r2.len() && r2[j2] == c;
                if (c as int) < first_rows(g1, rest).len() {
                    lemma_context_grows_with_edges(g1, g2, rest, c as int);
                }
                assert(node_part(g2, rest, r2[j2]).contains(x));
            }
        }
    } else {
        assert forall|x: NodeKey| design_context(g1, mp, s).contains(x) implies design_context(
            g2,
            mp,
            s,
        ).contains(x) by {
            if x != (mp[0].code_spec(), s as u32) {
                assert(r1.contains(x.1));
            }
        }
    }
}

/// Some step before step `i` of the metapath starts at a node type with the
/// same code as step `i`.
pub open spec fn code_seen_before<T: NodeLayer>(mp: Seq<T>, i: int) -> bool {
    exists|j: int| 0 <= j < i && #[trigger] mp[j].code_spec() == mp[i].code_spec()
}

/// The number of rows of the matrix of step `i` of the metapath.
pub open spec fn step_row_count<T: NodeLayer>(g: HeteroGraph, mp: Seq<T>, i: int) -> nat {
    g.adjacency(mp[i].name_spec(), mp[i + 1].name_spec()).len()
}

/// Over the steps before `n`, in order: for each step whose source type no
/// earlier step starts at, the code of that type with the step's row count.
pub open spec fn node_rows_upto<T: NodeLayer>(g: HeteroGraph, mp: Seq<T>, n: int) -> Seq<
    (u32, usize),
>
    decreases n,
{
    if n <= 0 {
        Seq::empty()
    } else if code_seen_before(mp, n - 1) {
        node_rows_upto(g, mp, n - 1)
    } else {
        node_rows_upto(g, mp, n - 1).push(
            (mp[n - 1].code_spec(), step_row_count(g, mp, n - 1) as usize),
        )
    }
}

/// For each node type that starts a step of the metapath, its code with the
/// number of rows of the first step that it starts, in the order of those
/// steps.
pub fn get_node_rows<NodeType: NodeLayer>(hetero_graph: &HeteroGraph, meta_path: &[NodeType]) -> (r:
    Vec<(u32, usize)>)
    requires
        forall|i: int|
            0 <= i < meta_path@.len() - 1 && !code_seen_before(meta_path@, i) ==> #[trigger] has_step(
                *hetero_graph,
                meta_path@,
                i,
            ),
    ensures
        r@ == node_rows_upto(*hetero_graph, meta_path@, meta_path@.len() - 1),
{
    let ghost g = *hetero_graph;
    let ghost mp = meta_path@;
    let mut r: Vec<(u32, usize)> = Vec::new();
    let len = meta_path.len();
    if len < 2 {
        return r;
    }
    for i in 0..len - 1
        invariant
            len == mp.len(),
            len >= 2,
            mp == meta_path@,
            g == *hetero_graph,
            forall|i2: int|
                0 <= i2 < mp.len() - 1 && !code_seen_before(mp, i2) ==> #[trigger] has_step(g, mp, i2),
            r@ == node_rows_upto(g, mp, i as int),
    {
        let code = meta_path[i].code();
        let mut seen = false;
        for j in 0..i
            invariant
                i < mp.len(),
                mp == meta_path@,
                code == mp[i as int].code_spec(),
                seen == exists|j2: int| 0 <= j2 < j && #[trigger] mp[j2].code_spec() == code,
        {
            if meta_path[j].code() == code {
                seen = true;
            }
            proof {
                if !seen {
                    assert forall|j2: int| 0 <= j2 < j + 1 implies #[trigger] mp[j2].code_spec() != code by {
                        if j2 < j {
                            assert(!(0 <= j2 < j && mp[j2].code_spec() == code));
                        }
                    }
                }
            }
        }
        assert(seen == code_seen_before(mp, i as int));
        if !seen {
            proof {
                assert(has_step(g, mp, i as int));
            }
            let m = hetero_graph.get(&meta_path[i].name(), &meta_path[i + 1].name()).unwrap();
            let rows = m.rows();
            r.push((code, rows));
        }
    }
    r
}

/// The row count that a table of `(code, rows)` pairs gives a code: that of
/// its first pair with the code.
pub open spec fn lookup_rows(table: Seq<(u32, usize)>, c: u32) -> Option<usize>
    decreases table.len(),
{
    if table.len() == 0 {
        None
    } else if table[0].0 == c {
        Some(table[0].1)
    } else {
        lookup_rows(table.drop_first(), c)
    }
}

/// Over the first `n` types of a metapath, in order, each type whose code no
/// earlier type has, with the row count that the table gives it; `None` where
/// the table gives one of them none.
pub open spec fn feature_sizes_upto<T: NodeLayer>(
    mp: Seq<T>,
    table: Seq<(u32, usize)>,
    n: int,
) -> Option<Seq<(u32, usize)>>
    decreases n,
{
    if n <= 0 {
        Some(Seq::empty())
    } else {
        match feature_sizes_upto(mp, table, n - 1) {
            None => None,
            Some(prev) => if code_seen_before(mp, n - 1) {
                Some(prev)
            } else {
                match lookup_rows(table, mp[n - 1].code_spec()) {
                    None => None,
                    Some(r) => Some(prev.push((mp[n - 1].code_spec(), r))),
                }
            },
        }
    }
}

proof fn lemma_feature_sizes_none_stays<T: NodeLayer>(
    mp: Seq<T>,
    table: Seq<(u32, usize)>,
    n: int,
    m: int,
)
    requires
        0 <= n <= m,
        feature_sizes_upto(mp, table, n) is None,
    ensures
        feature_sizes_upto(mp, table, m) is None,
    decreases m - n,
{
    if n < m {
        lemma_feature_sizes_none_stays(mp, table, n, m - 1);
    }
}

/// How many features each node type of a metapath needs: every type, once,
/// in metapath order, with the row count that `node_rows` (as made by
/// `get_node_rows`) gives it; `None` where a type has no row count there.
pub fn feature_sizes<NodeType: NodeLayer>(meta_path: &[NodeType], node_rows: &[(u32, usize)]) -> (r:
    Option<Vec<(u32, usize)>>)
    ensures
        match r {
            Some(v) => feature_sizes_upto(meta_path@, node_rows@, meta_path@.len() as int) == Some(
                v@,
            ),
            None => feature_sizes_upto(meta_path@, node_rows@, meta_path@.len() as int) is None,
        },
{
    let ghost mp = meta_path@;
    let ghost table = node_rows@;
    let mut r: Vec<(u32, usize)> = Vec::new();
    let len = meta_path.len();
    for i in 0..len
        invariant
            len == mp.len(),
            mp == meta_path@,
            table == node_rows@,
            feature_sizes_upto(mp, table, i as int) == Some(r@),
    {
        let code = meta_path[i].code();
        let mut seen = false;
        for j in 0..i
            invariant
                i < mp.len(),
                mp == meta_path@,
                code == mp[i as int].code_spec(),
                seen == exists|j2: int| 0 <= j2 < j && #[trigger] mp[j2].code_spec() == code,
        {
            if meta_path[j].code() == code {
                seen = true;
            }
            proof {
                if !seen {
                    assert forall|j2: int| 0 <= j2 < j + 1 implies #[trigger] mp[j2].code_spec() != code by {
                        if j2 < j {
                            assert(!(0 <= j2 < j && mp[j2].code_spec() == code));
                        }
                    }
                }
            }
        }
        assert(seen == code_seen_before(mp, i as int));
        if !seen {
            let n = node_rows.len();
            let mut k: usize = 0;
            let mut found: Option<usize> = None;
            assert(table.skip(0) =~= table);
            while k < n
                invariant_except_break
                    n == table.len(),
                    table == node_rows@,
                    0 <= k <= n,
                    found is None,
                    lookup_rows(table, code) == lookup_rows(table.skip(k as int), code),
                ensures
                    found == lookup_rows(table, code),
                decreases n - k,
            {
                assert(table.skip(k as int).drop_first() =~= table.skip(k + 1));
                if node_rows[k].0 == code {
                    found = Some(node_rows[k].1);
                    break;
                }
                k = k + 1;
            }
            match found {
                Some(rows) => {
                    r.push((code, rows));
                },
                None => {
                    proof {
                        assert(feature_sizes_upto(mp, table, i + 1) is None);
                        lemma_feature_sizes_none_stays(mp, table, i + 1, len as int);
                    }
                    return None;
                },
            }
        }
    }
    Some(r)
}

/// A way of building the context of every node of a metapath's first matrix,
/// for metapaths over the node types `NodeType`.
pub trait BuildContextFn<NodeType: NodeLayer> {
    /// The graphs and metapaths on which this way reads only what exists.
    spec fn can_build(graph: HeteroGraph, metapath: Seq<NodeType>) -> bool;

    /// The context that this way builds for node `s`.
    spec fn context_of(graph: HeteroGraph, metapath: Seq<NodeType>, s: int) -> Set<NodeKey>;

    /// Whether this way can build the contexts of a metapath in a graph.
    fn check_can_build(graph: &HeteroGraph, metapath: &[NodeType]) -> (r: bool)
        ensures
            r == Self::can_build(*graph, metapath@),
    ;

    /// The context of every node of the first matrix of a metapath.
    fn build_context(graph: &HeteroGraph, metapath: &[NodeType]) -> (r: Vec<NodeSet>)
        requires
            Self::can_build(*graph, metapath@),
        ensures
            r@.len() == first_rows(*graph, metapath@).len(),
            forall|s: int|
                0 <= s < r@.len() ==> (#[trigger] r@[s])@ == Self::context_of(*graph, metapath@, s),
    ;
}

} // verus!
