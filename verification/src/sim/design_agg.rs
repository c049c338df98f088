//! Contexts built bottom-up together with the aggregate of their node
//! features, each kept up to date incrementally while contexts are merged.
use vstd::prelude::*;
use vstd::set::fold::{is_fun_commutative, lemma_fold_empty, lemma_fold_insert};
use crate::graph::HeteroGraph;
use crate::node_set::{FeatureMap, NodeKey, NodeSet};
use crate::node_types::NodeLayer;
use crate::sim::{
    design_context, design_union, first_rows, has_step, lemma_path_in_graph_rest,
    lemma_take_contains, path_in_graph, row_keys,
};

verus! {

/// Builds contexts bottom-up and aggregates their features.
pub struct DesignBuildContextAggFn;

/// Feature aggregates are 64-bit words: sums wrap around modulo this.
pub open spec fn word_modulus() -> int {
    0x1_0000_0000_0000_0000
}

/// The feature of a node: its entry in its layer's feature list, or zero
/// where the list has none for it.
pub open spec fn feat(f: Map<u32, Seq<u64>>, k: NodeKey) -> int {
    if f.contains_key(k.0) && (k.1 as int) < f[k.0].len() {
        f[k.0][k.1 as int] as int
    } else {
        0
    }
}

/// Adds a node's feature to a running sum.
pub open spec fn feature_adder(f: Map<u32, Seq<u64>>) -> spec_fn(int, NodeKey) -> int {
    |acc: int, k: NodeKey| acc + feat(f, k)
}

/// The sum of the features of the nodes of a set.
pub open spec fn feature_sum(f: Map<u32, Seq<u64>>, s: Set<NodeKey>) -> int {
    s.fold(0int, feature_adder(f))
}

/// The sum of the features of the nodes of type `code` that a row lists, each
/// counted once per occurrence.
pub open spec fn row_feature_sum(f: Map<u32, Seq<u64>>, code: u32, row: Seq<u32>) -> int
    decreases row.len(),
{
    if row.len() == 0 {
        0
    } else {
        row_feature_sum(f, code, row.drop_last()) + feat(f, (code, row.last()))
    }
}

/// The feature of source node `s` of type `code`, zero where its layer's
/// list has no entry for it.
pub open spec fn source_feature(f: Map<u32, Seq<u64>>, code: u32, s: int) -> int {
    if f.contains_key(code) && 0 <= s < f[code].len() {
        f[code][s] as int
    } else {
        0
    }
}

/// The aggregate computed for node `s` of a metapath's first matrix. On the
/// last step it is the sum of the neighbours' features plus the node's own;
/// on an earlier step it is the feature sum of the node's context, plus, for
/// each neighbour whose context was reused, how far that neighbour's
/// aggregate is from its context's feature sum. Modulo the word size.
pub open spec fn agg_value<T: NodeLayer>(
    g: HeteroGraph,
    mp: Seq<T>,
    f: Map<u32, Seq<u64>>,
    s: int,
) -> int
    decreases mp.len(), 0nat,
{
    if mp.len() < 2 {
        0
    } else {
        let rows = first_rows(g, mp);
        if mp.len() == 2 {
            (row_feature_sum(f, mp[1].code_spec(), rows[s]) + source_feature(
                f,
                mp[0].code_spec(),
                s,
            )) % word_modulus()
        } else {
            (feature_sum(f, design_context(g, mp, s)) + agg_error(g, mp.drop_first(), f, rows[s]))
                % word_modulus()
        }
    }
}

/// Over the nodes of a row that have a context along `mp`, the sum of how
/// far each one's aggregate is from its context's feature sum.
pub open spec fn agg_error<T: NodeLayer>(
    g: HeteroGraph,
    mp: Seq<T>,
    f: Map<u32, Seq<u64>>,
    row: Seq<u32>,
) -> int
    decreases mp.len(), row.len(),
{
    if row.len() == 0 {
        0
    } else {
        let nb = row.last();
        agg_error(g, mp, f, row.drop_last()) + if (nb as int) < first_rows(g, mp).len() {
            agg_value(g, mp, f, nb as int) - feature_sum(f, design_context(g, mp, nb as int))
        } else {
            0
        }
    }
}

/// The feature lists have an entry for the node.
pub open spec fn covers(f: Map<u32, Seq<u64>>, k: NodeKey) -> bool {
    f.contains_key(k.0) && (k.1 as int) < f[k.0].len()
}

/// The feature lists cover step `i` of the metapath: every source node of its
/// matrix and every node that its rows list.
pub open spec fn step_covered<T: NodeLayer>(
    g: HeteroGraph,
    mp: Seq<T>,
    f: Map<u32, Seq<u64>>,
    i: int,
) -> bool {
    let rows = g.adjacency(mp[i].name_spec(), mp[i + 1].name_spec());
    &&& f.contains_key(mp[i].code_spec())
    &&& rows.len() <= f[mp[i].code_spec()].len()
    &&& f.contains_key(mp[i + 1].code_spec())
    &&& forall|r: int, c: int|
        0 <= r < rows.len() && 0 <= c < rows[r].len() ==> (#[trigger] rows[r][c] as int)
            < f[mp[i + 1].code_spec()].len()
}

/// The feature lists cover every step of the metapath.
pub open spec fn features_cover<T: NodeLayer>(
    g: HeteroGraph,
    mp: Seq<T>,
    f: Map<u32, Seq<u64>>,
) -> bool {
    forall|i: int| 0 <= i < mp.len() - 1 ==> #[trigger] step_covered(g, mp, f, i)
}

/// Aggregating along a metapath reads only features that exist. On the last
/// step every neighbour needs its feature, and the source type a feature
/// list (a source without an entry in it counts zero). On an earlier step,
/// the remainder must be aggregable, and for each source node: a neighbour
/// without a row in the next matrix needs its type to have a feature list (it
/// counts zero without an entry); a node that a neighbour's context shares
/// with the contexts merged before it needs its feature (it is subtracted);
/// and the source itself needs its feature where no merged context holds it.
pub open spec fn agg_defined<T: NodeLayer>(g: HeteroGraph, mp: Seq<T>, f: Map<u32, Seq<u64>>) -> bool
    decreases mp.len(),
{
    &&& mp.len() >= 2
    &&& {
        let rows = first_rows(g, mp);
        if mp.len() == 2 {
            &&& rows.len() > 0 ==> f.contains_key(mp[0].code_spec())
            &&& forall|r: int, c: int|
                0 <= r < rows.len() && 0 <= c < rows[r].len() ==> covers(
                    f,
                    (mp[1].code_spec(), #[trigger] rows[r][c]),
                )
        } else {
            &&& agg_defined(g, mp.drop_first(), f)
            &&& forall|s: int| 0 <= s < rows.len() ==> #[trigger] agg_row_defined(g, mp, f, s)
        }
    }
}

/// Aggregating the context of source `s` on an earlier step of a metapath
/// reads only features that exist (see `agg_defined`).
pub open spec fn agg_row_defined<T: NodeLayer>(
    g: HeteroGraph,
    mp: Seq<T>,
    f: Map<u32, Seq<u64>>,
    s: int,
) -> bool {
    let rest = mp.drop_first();
    let row = first_rows(g, mp)[s];
    let n1 = first_rows(g, rest).len();
    let own = (mp[0].code_spec(), s as u32);
    &&& forall|j: int|
        0 <= j < row.len() && n1 <= (#[trigger] row[j] as int) ==> f.contains_key(
            mp[1].code_spec(),
        )
    &&& forall|j: int, x: NodeKey|
        #![trigger design_union(g, rest, row.take(j)).contains(x), design_context(g, rest, row[j] as int).contains(x)]
        0 < j < row.len() && (row[j] as int) < n1 && design_union(g, rest, row.take(j)).contains(x)
            && design_context(g, rest, row[j] as int).contains(x) ==> covers(f, x)
    &&& !design_union(g, rest, row).contains(own) ==> covers(f, own)
}

/// Feature lists that cover every step of a metapath in the graph leave
/// nothing for aggregating to read that does not exist.
pub proof fn lemma_features_cover_agg_defined<T: NodeLayer>(
    g: HeteroGraph,
    mp: Seq<T>,
    f: Map<u32, Seq<u64>>,
)
    requires
        path_in_graph(g, mp),
        features_cover(g, mp, f),
    ensures
        agg_defined(g, mp, f),
    decreases mp.len(),
{
    let rows = first_rows(g, mp);
    assert(step_covered(g, mp, f, 0));
    if mp.len() == 2 {
        assert forall|r: int, c: int|
            0 <= r < rows.len() && 0 <= c < rows[r].len() implies covers(
                f,
                (mp[1].code_spec(), #[trigger] rows[r][c]),
            ) by {}
    } else {
        let rest = mp.drop_first();
        lemma_path_in_graph_rest(g, mp);
        lemma_features_cover_rest(g, mp, f);
        lemma_features_cover_agg_defined(g, rest, f);
        assert forall|s: int| 0 <= s < rows.len() implies #[trigger] agg_row_defined(g, mp, f, s) by {
            let row = rows[s];
            assert forall|j: int, x: NodeKey|
                0 < j < row.len() && (row[j] as int) < first_rows(g, rest).len() && design_union(
                    g,
                    rest,
                    row.take(j),
                ).contains(x) && design_context(g, rest, row[j] as int).contains(x) implies covers(
                f,
                x,
            ) by {
                lemma_context_covered(g, rest, f, row[j] as int, x);
            }
        }
    }
}

/// No node of the last step's source type lists itself as a neighbour of the
/// last step's target type.
pub open spec fn last_step_loop_free<T: NodeLayer>(g: HeteroGraph, mp: Seq<T>) -> bool {
    let n = mp.len();
    let rows = g.adjacency(mp[n - 2].name_spec(), mp[n - 1].name_spec());
    forall|s: int|
        0 <= s < rows.len() ==> !(mp[n - 2].code_spec() == mp[n - 1].code_spec()
            && #[trigger] rows[s].contains(s as u32))
}

pub proof fn lemma_feature_adder_commutative(f: Map<u32, Seq<u64>>)
    ensures
        is_fun_commutative(feature_adder(f)),
{
}

pub proof fn lemma_feature_sum_empty(f: Map<u32, Seq<u64>>)
    ensures
        feature_sum(f, Set::empty()) == 0,
{
    lemma_fold_empty(0int, feature_adder(f));
}

pub proof fn lemma_feature_sum_insert(f: Map<u32, Seq<u64>>, s: Set<NodeKey>, k: NodeKey)
    requires
        s.finite(),
    ensures
        feature_sum(f, s.insert(k)) == feature_sum(f, s) + if s.contains(k) {
            0
        } else {
            feat(f, k)
        },
{
    if s.contains(k) {
        assert(s.insert(k) =~= s);
    } else {
        lemma_feature_adder_commutative(f);
        lemma_fold_insert(s, 0int, feature_adder(f), k);
    }
}

pub proof fn lemma_feature_sum_remove(f: Map<u32, Seq<u64>>, s: Set<NodeKey>, k: NodeKey)
    requires
        s.finite(),
        s.contains(k),
    ensures
        feature_sum(f, s.remove(k)) == feature_sum(f, s) - feat(f, k),
{
    lemma_feature_sum_insert(f, s.remove(k), k);
    assert(s.remove(k).insert(k) =~= s);
}

/// A row without repeated nodes: the sum over the row is the sum over the
/// set of the nodes it lists.
pub proof fn lemma_row_feature_sum_is_set_sum(f: Map<u32, Seq<u64>>, code: u32, row: Seq<u32>)
    requires
        row.no_duplicates(),
    ensures
        row_keys(code, row).finite(),
        row_feature_sum(f, code, row) == feature_sum(f, row_keys(code, row)),
    decreases row.len(),
{
    if row.len() == 0 {
        assert(row_keys(code, row) =~= Set::empty());
        lemma_feature_sum_empty(f);
    } else {
        let init = row.drop_last();
        lemma_row_feature_sum_is_set_sum(f, code, init);
        assert(row_keys(code, row) =~= row_keys(code, init).insert((code, row.last()))) by {
            assert forall|x: u32| row.contains(x) <==> (init.contains(x) || x == row.last()) by {
                lemma_take_contains(row, row.len() - 1, x);
                assert(row.take(row.len() - 1) =~= init);
                assert(row.take(row.len() as int) =~= row);
            }
        }
        assert(!init.contains(row.last()));
        lemma_feature_sum_insert(f, row_keys(code, init), (code, row.last()));
    }
}

/// The nodes that a row lists form a finite set.
pub proof fn lemma_row_keys_finite(code: u32, row: Seq<u32>)
    ensures
        row_keys(code, row).finite(),
    decreases row.len(),
{
    if row.len() == 0 {
        assert(row_keys(code, row) =~= Set::empty());
    } else {
        let init = row.drop_last();
        lemma_row_keys_finite(code, init);
        assert(row_keys(code, row) =~= row_keys(code, init).insert((code, row.last()))) by {
            assert forall|x: u32| row.contains(x) <==> (init.contains(x) || x == row.last()) by {
                lemma_take_contains(row, row.len() - 1, x);
                assert(row.take(row.len() - 1) =~= init);
                assert(row.take(row.len() as int) =~= row);
            }
        }
    }
}

/// A strictly increasing row has no repeated nodes.
pub proof fn lemma_increasing_no_duplicates(row: Seq<u32>)
    requires
        crate::matrix::strictly_increasing(row),
    ensures
        row.no_duplicates(),
{
}

/// Word arithmetic: adding to a word that holds `x` modulo the word size.
pub proof fn lemma_wrap_add(a: int, b: int, x: int)
    requires
        0 <= b < word_modulus(),
        a == x % word_modulus(),
    ensures
        (if a + b >= word_modulus() {
            a + b - word_modulus()
        } else {
            a + b
        }) == (x + b) % word_modulus(),
{
}

/// Word arithmetic: subtracting from a word that holds `x` modulo the word size.
pub proof fn lemma_wrap_sub(a: int, b: int, x: int)
    requires
        0 <= b < word_modulus(),
        a == x % word_modulus(),
    ensures
        (if a - b < 0 {
            a - b + word_modulus()
        } else {
            a - b
        }) == (x - b) % word_modulus(),
{
}

/// Contexts are finite.
pub proof fn lemma_design_context_finite<T: NodeLayer>(g: HeteroGraph, mp: Seq<T>, s: int)
    ensures
        design_context(g, mp, s).finite(),
    decreases mp.len(), 0nat,
{
    if mp.len() >= 2 {
        let rows = first_rows(g, mp);
        if mp.len() == 2 {
            lemma_row_keys_finite(mp[1].code_spec(), rows[s]);
        } else {
            lemma_design_union_finite(g, mp.drop_first(), rows[s]);
        }
    }
}

/// Unions of contexts over a row are finite.
pub proof fn lemma_design_union_finite<T: NodeLayer>(g: HeteroGraph, mp: Seq<T>, row: Seq<u32>)
    ensures
        design_union(g, mp, row).finite(),
    decreases mp.len(), row.len(),
{
    if row.len() > 0 {
        lemma_design_union_finite(g, mp, row.drop_last());
        let nb = row.last();
        if (nb as int) < first_rows(g, mp).len() {
            lemma_design_context_finite(g, mp, nb as int);
        }
    }
}

/// The feature lists that cover a metapath cover its remainder.
pub proof fn lemma_features_cover_rest<T: NodeLayer>(
    g: HeteroGraph,
    mp: Seq<T>,
    f: Map<u32, Seq<u64>>,
)
    requires
        features_cover(g, mp, f),
        mp.len() > 2,
    ensures
        features_cover(g, mp.drop_first(), f),
        step_covered(g, mp, f, 0),
{
    let rest = mp.drop_first();
    assert forall|i: int| 0 <= i < rest.len() - 1 implies #[trigger] step_covered(g, rest, f, i) by {
        assert(step_covered(g, mp, f, i + 1));
        assert(rest[i] == mp[i + 1]);
        assert(rest[i + 1] == mp[i + 1 + 1]);
    }
    assert(step_covered(g, mp, f, 0));
}

/// The feature lists that cover a metapath cover every node of every context
/// along it.
pub proof fn lemma_context_covered<T: NodeLayer>(
    g: HeteroGraph,
    mp: Seq<T>,
    f: Map<u32, Seq<u64>>,
    s: int,
    x: NodeKey,
)
    requires
        path_in_graph(g, mp),
        features_cover(g, mp, f),
        0 <= s < first_rows(g, mp).len(),
        design_context(g, mp, s).contains(x),
    ensures
        covers(f, x),
    decreases mp.len(), 0nat,
{
    let rows = first_rows(g, mp);
    assert(step_covered(g, mp, f, 0));
    assert(0 <= s < f[mp[0].code_spec()].len());
    if x == (mp[0].code_spec(), s as u32) {
    } else if mp.len() == 2 {
        let c = choose|c: int| 0 <= c < rows[s].len() && #[trigger] rows[s][c] == x.1;
        assert((rows[s][c] as int) < f[mp[1].code_spec()].len());
    } else {
        lemma_path_in_graph_rest(g, mp);
        lemma_features_cover_rest(g, mp, f);
        lemma_union_covered(g, mp.drop_first(), f, rows[s], x, mp[1].code_spec(), f[mp[1].code_spec()].len() as int);
        assert forall|c: int| 0 <= c < rows[s].len() implies (#[trigger] rows[s][c] as int) < f[mp[1].code_spec()].len() by {
        }
    }
}

/// The feature lists that cover a metapath cover every node of a union of
/// contexts along it, over a row whose nodes they cover.
pub proof fn lemma_union_covered<T: NodeLayer>(
    g: HeteroGraph,
    mp: Seq<T>,
    f: Map<u32, Seq<u64>>,
    row: Seq<u32>,
    x: NodeKey,
    code: u32,
    bound: int,
)
    requires
        path_in_graph(g, mp),
        features_cover(g, mp, f),
        code == mp[0].code_spec(),
        f.contains_key(code),
        bound == f[code].len(),
        forall|c: int| 0 <= c < row.len() ==> (#[trigger] row[c] as int) < bound,
        design_union(g, mp, row).contains(x),
    ensures
        covers(f, x),
    decreases mp.len(), row.len(),
{
    let nb = row.last();
    if design_union(g, mp, row.drop_last()).contains(x) {
        lemma_union_covered(g, mp, f, row.drop_last(), x, code, bound);
    } else if (nb as int) < first_rows(g, mp).len() {
        lemma_context_covered(g, mp, f, nb as int, x);
    } else {
        assert(row[row.len() - 1] == nb);
    }
}

/// Over a row of nodes with contexts whose aggregates are their feature
/// sums, the distances add up to a multiple of the word size.
proof fn lemma_agg_error_vanishes<T: NodeLayer>(
    g: HeteroGraph,
    mp: Seq<T>,
    f: Map<u32, Seq<u64>>,
    row: Seq<u32>,
)
    requires
        g.wf(),
        path_in_graph(g, mp),
        last_step_loop_free(g, mp),
    ensures
        agg_error(g, mp, f, row) % word_modulus() == 0,
    decreases mp.len(), row.len(),
{
    if row.len() > 0 {
        lemma_agg_error_vanishes(g, mp, f, row.drop_last());
        let nb = row.last();
        if (nb as int) < first_rows(g, mp).len() {
            lemma_aggregate_is_feature_sum(g, mp, f, nb as int);
            let x = feature_sum(f, design_context(g, mp, nb as int));
            let e = agg_error(g, mp, f, row.drop_last());
            assert((e + (x % word_modulus() - x)) % word_modulus() == 0) by (nonlinear_arith)
                requires
                    e % word_modulus() == 0,
                    word_modulus() == 0x1_0000_0000_0000_0000,
            ;
        }
    }
}

/// Where no node of the last step's source type is its own neighbour, the
/// aggregate of each node is the sum, modulo the word size, of the features
/// of the nodes of its context.
pub proof fn lemma_aggregate_is_feature_sum<T: NodeLayer>(
    g: HeteroGraph,
    mp: Seq<T>,
    f: Map<u32, Seq<u64>>,
    s: int,
)
    requires
        g.wf(),
        path_in_graph(g, mp),
        last_step_loop_free(g, mp),
        0 <= s < first_rows(g, mp).len(),
    ensures
        agg_value(g, mp, f, s) == feature_sum(f, design_context(g, mp, s)) % word_modulus(),
    decreases mp.len(), 0nat,
{
    let rows = first_rows(g, mp);
    let own = (mp[0].code_spec(), s as u32);
    assert(has_step(g, mp, 0));
    crate::graph::lemma_subgraph_wf(g, mp[0].name_spec(), mp[1].name_spec());
    if mp.len() == 2 {
        let keys = row_keys(mp[1].code_spec(), rows[s]);
        lemma_increasing_no_duplicates(rows[s]);
        lemma_row_feature_sum_is_set_sum(f, mp[1].code_spec(), rows[s]);
        let n = mp.len();
        assert(mp[n - 2] == mp[0]);
        assert(mp[n - 1] == mp[1]);
        if mp[0].code_spec() == mp[1].code_spec() {
            assert(!rows[s].contains(s as u32));
        }
        assert(!keys.contains(own));
        assert(design_context(g, mp, s) =~= keys.insert(own));
        lemma_feature_sum_insert(f, keys, own);
        assert((s as u32) as int == s);
    } else {
        let rest = mp.drop_first();
        lemma_path_in_graph_rest(g, mp);
        assert(last_step_loop_free(g, rest)) by {
            assert(rest[rest.len() - 2] == mp[mp.len() - 2]);
            assert(rest[rest.len() - 1] == mp[mp.len() - 1]);
        }
        lemma_agg_error_vanishes(g, rest, f, rows[s]);
        let x = feature_sum(f, design_context(g, mp, s));
        let e = agg_error(g, rest, f, rows[s]);
        assert((x + e) % word_modulus() == x % word_modulus()) by (nonlinear_arith)
            requires
                e % word_modulus() == 0,
                word_modulus() == 0x1_0000_0000_0000_0000,
        ;
    }
}

proof fn lemma_row_feature_sum_is_fold(f: Map<u32, Seq<u64>>, code: u32, row: Seq<u32>)
    ensures
        row_feature_sum(f, code, row) == row.fold_left(0int, |acc: int, c: u32| acc + feat(f, (code, c))),
    decreases row.len(),
{
    if row.len() > 0 {
        lemma_row_feature_sum_is_fold(f, code, row.drop_last());
    }
}

/// On the last step of a metapath, the aggregate of a source node of its
/// matrix, whatever its id, is the sum, modulo the word size, of the features
/// of every node that its row lists (once per listing) and of its own.
pub proof fn lemma_last_step_aggregate<T: NodeLayer>(
    g: HeteroGraph,
    mp: Seq<T>,
    f: Map<u32, Seq<u64>>,
    s: u32,
)
    requires
        mp.len() == 2,
        (s as int) < first_rows(g, mp).len(),
    ensures
        agg_value(g, mp, f, s as int) == (first_rows(g, mp)[s as int].fold_left(
            0int,
            |acc: int, c: u32| acc + feat(f, (mp[1].code_spec(), c)),
        ) + feat(f, (mp[0].code_spec(), s))) % word_modulus(),
{
    lemma_row_feature_sum_is_fold(f, mp[1].code_spec(), first_rows(g, mp)[s as int]);
}

/// `f3` is the sum of `f1` and `f2`, feature by feature, modulo the word size:
/// all three have the same layers with lists of the same lengths.
pub open spec fn features_add(f1: Map<u32, Seq<u64>>, f2: Map<u32, Seq<u64>>, f3: Map<u32, Seq<u64>>) -> bool {
    &&& f1.dom() == f3.dom()
    &&& f2.dom() == f3.dom()
    &&& forall|c: u32|
        #[trigger] f3.contains_key(c) ==> f1[c].len() == f3[c].len() && f2[c].len() == f3[c].len()
    &&& forall|c: u32, i: int|
        f3.contains_key(c) && 0 <= i < f3[c].len() ==> #[trigger] f3[c][i] as int == (f1[c][i]
            + f2[c][i]) % word_modulus()
}

/// The feature sum of a set, modulo the word size, is additive in the
/// features.
pub proof fn lemma_feature_sum_additive(
    f1: Map<u32, Seq<u64>>,
    f2: Map<u32, Seq<u64>>,
    f3: Map<u32, Seq<u64>>,
    s: Set<NodeKey>,
)
    requires
        features_add(f1, f2, f3),
        s.finite(),
    ensures
        feature_sum(f3, s) % word_modulus() == (feature_sum(f1, s) + feature_sum(f2, s))
            % word_modulus(),
    decreases s.len(),
{
    if s.len() == 0 {
        assert(s =~= Set::<NodeKey>::empty());
        lemma_feature_sum_empty(f1);
        lemma_feature_sum_empty(f2);
        lemma_feature_sum_empty(f3);
    } else {
        let a = s.choose();
        let t = s.remove(a);
        lemma_feature_sum_additive(f1, f2, f3, t);
        lemma_feature_sum_remove(f1, s, a);
        lemma_feature_sum_remove(f2, s, a);
        lemma_feature_sum_remove(f3, s, a);
        let m = word_modulus();
        let x1 = feature_sum(f1, t);
        let x2 = feature_sum(f2, t);
        let x3 = feature_sum(f3, t);
        let a1 = feat(f1, a);
        let a2 = feat(f2, a);
        let a3 = feat(f3, a);
        assert(a3 == (a1 + a2) % m) by {
            if f3.contains_key(a.0) && (a.1 as int) < f3[a.0].len() {
                assert(f3[a.0][a.1 as int] as int == (f1[a.0][a.1 as int] + f2[a.0][a.1 as int]) % m);
            } else {
                assert(a1 == 0 && a2 == 0);
            }
        }
        assert((x3 + a3) % m == (x1 + a1 + x2 + a2) % m) by (nonlinear_arith)
            requires
                x3 % m == (x1 + x2) % m,
                a3 == (a1 + a2) % m,
                m == 0x1_0000_0000_0000_0000,
        ;
    }
}

/// The aggregate is additive in the features: where no node of the last
/// step's source type is its own neighbour, aggregating the sum of two
/// feature assignments gives the sum of their aggregates, modulo the word
/// size.
pub proof fn lemma_aggregate_additive<T: NodeLayer>(
    g: HeteroGraph,
    mp: Seq<T>,
    f1: Map<u32, Seq<u64>>,
    f2: Map<u32, Seq<u64>>,
    f3: Map<u32, Seq<u64>>,
    s: int,
)
    requires
        g.wf(),
        path_in_graph(g, mp),
        last_step_loop_free(g, mp),
        features_add(f1, f2, f3),
        0 <= s < first_rows(g, mp).len(),
    ensures
        agg_value(g, mp, f3, s) == (agg_value(g, mp, f1, s) + agg_value(g, mp, f2, s))
            % word_modulus(),
{
    lemma_aggregate_is_feature_sum(g, mp, f1, s);
    lemma_aggregate_is_feature_sum(g, mp, f2, s);
    lemma_aggregate_is_feature_sum(g, mp, f3, s);
    lemma_design_context_finite(g, mp, s);
    let c = design_context(g, mp, s);
    lemma_feature_sum_additive(f1, f2, f3, c);
    let m = word_modulus();
    let x1 = feature_sum(f1, c);
    let x2 = feature_sum(f2, c);
    assert((x1 % m + x2 % m) % m == (x1 + x2) % m) by (nonlinear_arith)
        requires
            m == 0x1_0000_0000_0000_0000,
    ;
}

/// Whether the feature lists cover every step of a metapath that is in the
/// graph.
pub fn check_features_cover<NodeType: NodeLayer>(
    g: &HeteroGraph,
    metapath: &[NodeType],
    node_features: &FeatureMap,
) -> (r: bool)
    requires
        path_in_graph(*g, metapath@),
    ensures
        r == features_cover(*g, metapath@, node_features@),
{
    let len = metapath.len();
    for i in 0..len - 1
        invariant
            len == metapath@.len(),
            path_in_graph(*g, metapath@),
            forall|k: int| 0 <= k < i ==> #[trigger] step_covered(*g, metapath@, node_features@, k),
    {
        assert(has_step(*g, metapath@, i as int));
        let m = g.get(&metapath[i].name(), &metapath[i + 1].name()).unwrap();
        let ghost rows = m.rows_spec();
        let source = match node_features.get(metapath[i].code()) {
            Some(v) => v,
            None => {
                assert(!step_covered(*g, metapath@, node_features@, i as int));
                return false;
            },
        };
        let target = match node_features.get(metapath[i + 1].code()) {
            Some(v) => v,
            None => {
                assert(!step_covered(*g, metapath@, node_features@, i as int));
                return false;
            },
        };
        let n = m.rows();
        if n > source.len() {
            assert(!step_covered(*g, metapath@, node_features@, i as int));
            return false;
        }
        let bound = target.len();
        for r in 0..n
            invariant
                n == rows.len(),
                rows == m.rows_spec(),
                rows == g.adjacency(metapath@[i as int].name_spec(), metapath@[i + 1].name_spec()),
                0 <= i < len - 1,
                len == metapath@.len(),
                node_features@.contains_key(metapath@[i + 1].code_spec()),
                target@ == node_features@[metapath@[i + 1].code_spec()],
                bound == target@.len(),
                forall|q: int, c: int|
                    0 <= q < r && 0 <= c < rows[q].len() ==> (#[trigger] rows[q][c] as int)
                        < bound,
        {
            let row = m.row(r).unwrap();
            let k = row.len();
            for c in 0..k
                invariant
                    0 <= r < n,
                    n == rows.len(),
                    rows == g.adjacency(metapath@[i as int].name_spec(), metapath@[i + 1].name_spec()),
                    0 <= i < len - 1,
                    len == metapath@.len(),
                    node_features@.contains_key(metapath@[i + 1].code_spec()),
                    target@ == node_features@[metapath@[i + 1].code_spec()],
                    k == rows[r as int].len(),
                    row@ == rows[r as int],
                    bound == target@.len(),
                    forall|q: int, c2: int|
                        0 <= q < r && 0 <= c2 < rows[q].len() ==> (#[trigger] rows[q][c2] as int)
                            < bound,
                    forall|c2: int| 0 <= c2 < c ==> (#[trigger] rows[r as int][c2] as int) < bound,
            {
                if row[c] as usize >= bound {
                    assert((rows[r as int][c as int] as int) >= bound);
                    assert(!step_covered(*g, metapath@, node_features@, i as int));
                    return false;
                }
            }
        }
        assert(step_covered(*g, metapath@, node_features@, i as int));
    }
    true
}

/// The sum, modulo the word size, of the features of the nodes of a context;
/// a node without a feature counts zero.
pub fn context_feature_sum(context: &NodeSet, node_features: &FeatureMap) -> (r: u64)
    ensures
        r as int == feature_sum(node_features@, context@) % word_modulus(),
{
    let ghost f = node_features@;
    let items = context.to_vec();
    let n = items.len();
    let ghost seq = items@;
    let mut acc: u64 = 0;
    proof {
        assert(seq.take(0).to_set() =~= Set::<NodeKey>::empty());
        lemma_feature_sum_empty(f);
    }
    for k in 0..n
        invariant
            n == seq.len(),
            seq == items@,
            seq.no_duplicates(),
            f == node_features@,
            acc as int == feature_sum(f, seq.take(k as int).to_set()) % word_modulus(),
    {
        let t = items[k];
        let v: u64 = match node_features.get(t.0) {
            Some(layer) => if (t.1 as usize) < layer.len() {
                layer[t.1 as usize]
            } else {
                0
            },
            None => 0,
        };
        proof {
            let before = seq.take(k as int).to_set();
            assert forall|x: NodeKey|
                #[trigger] seq.take(k + 1).to_set().contains(x) == before.insert(t).contains(x) by {
                lemma_take_contains(seq, k as int, x);
                assert(seq[k as int] == t);
            }
            assert(seq.take(k + 1).to_set() =~= before.insert(t));
            assert(!seq.take(k as int).contains(t)) by {
                if seq.take(k as int).contains(t) {
                    let w = choose|w: int| 0 <= w < k && #[trigger] seq.take(k as int)[w] == t;
                    assert(seq[w] == seq[k as int]);
                }
            }
            vstd::seq_lib::seq_to_set_is_finite(seq.take(k as int));
            lemma_feature_sum_insert(f, before, t);
            assert(v as int == feat(f, t));
            lemma_wrap_add(acc as int, v as int, feature_sum(f, before));
        }
        acc = acc.wrapping_add(v);
    }
    proof {
        assert(seq.take(n as int) =~= seq);
    }
    acc
}

/// Merges `pre_context`, whose aggregate is `pre_result`, into `new_context`:
/// the aggregate gains `pre_result` and loses the feature of each node that
/// the two contexts share.
fn merge_context(
    new_context: &mut NodeSet,
    new_result: &mut u64,
    pre_context: &NodeSet,
    pre_result: u64,
    node_features: &FeatureMap,
    Ghost(e): Ghost<int>,
)
    requires
        old(new_context)@.finite(),
        *old(new_result) as int == (feature_sum(node_features@, old(new_context)@) + e)
            % word_modulus(),
        forall|x: NodeKey|
            #[trigger] pre_context@.contains(x) && old(new_context)@.contains(x) ==> covers(
                node_features@,
                x,
            ),
    ensures
        final(new_context)@ == old(new_context)@.union(pre_context@),
        final(new_context)@.finite(),
        *final(new_result) as int == (feature_sum(node_features@, final(new_context)@) + e
            + pre_result - feature_sum(node_features@, pre_context@)) % word_modulus(),
{
    let ghost f = node_features@;
    let ghost c0 = new_context@;
    let ghost pre = pre_context@;
    proof {
        lemma_wrap_add(*new_result as int, pre_result as int, feature_sum(f, c0) + e);
    }
    *new_result = new_result.wrapping_add(pre_result);
    let items = pre_context.to_vec();
    let n = items.len();
    let ghost seq = items@;
    proof {
        assert(seq.take(0).to_set() =~= Set::<NodeKey>::empty());
        assert(pre.difference(seq.take(0).to_set()) =~= pre);
        assert(c0.union(seq.take(0).to_set()) =~= c0);
    }
    for k in 0..n
        invariant
            n == seq.len(),
            seq == items@,
            seq.no_duplicates(),
            seq.to_set() == pre,
            pre == pre_context@,
            f == node_features@,
            forall|x: NodeKey| #[trigger] pre.contains(x) && c0.contains(x) ==> covers(f, x),
            new_context@ == c0.union(seq.take(k as int).to_set()),
            new_context@.finite(),
            *new_result as int == (feature_sum(f, new_context@) + feature_sum(
                f,
                pre.difference(seq.take(k as int).to_set()),
            ) + e + pre_result - feature_sum(f, pre)) % word_modulus(),
    {
        let t = items[k];
        let ghost before = new_context@;
        let ghost rem = pre.difference(seq.take(k as int).to_set());
        proof {
            assert forall|x: NodeKey|
                #[trigger] seq.take(k + 1).to_set().contains(x) == seq.take(
                    k as int,
                ).to_set().insert(t).contains(x) by {
                lemma_take_contains(seq, k as int, x);
                assert(seq[k as int] == t);
            }
            assert(seq.take(k + 1).to_set() =~= seq.take(k as int).to_set().insert(t));
            assert(!seq.take(k as int).contains(t)) by {
                if seq.take(k as int).contains(t) {
                    let w = choose|w: int| 0 <= w < k && #[trigger] seq.take(k as int)[w] == t;
                    assert(seq[w] == seq[k as int]);
                }
            }
            assert(seq.contains(t)) by {
                assert(seq[k as int] == t);
            }
            assert(pre.contains(t));
            assert(rem.contains(t));
            assert(pre.difference(seq.take(k + 1).to_set()) =~= rem.remove(t));
            lemma_feature_sum_remove(f, rem, t);
            lemma_feature_sum_insert(f, before, t);
        }
        let inserted = new_context.insert(t);
        if !inserted {
            proof {
                assert(before.contains(t));
                assert(!seq.take(k as int).to_set().contains(t));
                assert(c0.contains(t));
                assert(covers(f, t));
            }
            let layer = node_features.get(t.0).unwrap();
            let fv = layer[t.1 as usize];
            proof {
                assert(covers(f, t));
                assert(fv as int == feat(f, t));
                lemma_wrap_sub(
                    *new_result as int,
                    fv as int,
                    feature_sum(f, before) + feature_sum(f, rem) + e + pre_result - feature_sum(
                        f,
                        pre,
                    ),
                );
            }
            *new_result = new_result.wrapping_sub(fv);
        }
        proof {
            assert(new_context@ == c0.union(seq.take(k + 1).to_set()));
        }
    }
    proof {
        assert(seq.take(n as int) =~= seq);
        assert(pre.difference(seq.to_set()) =~= Set::<NodeKey>::empty());
        lemma_feature_sum_empty(f);
    }
}

/// The context and aggregate of a source node on the last step of a
/// metapath: its neighbours and itself; the sum of their features.
fn aggregate_last_step_row(
    row: &[u32],
    source_id: usize,
    code0: u32,
    code1: u32,
    feats0: &Vec<u64>,
    feats1: Option<&Vec<u64>>,
    Ghost(f): Ghost<Map<u32, Seq<u64>>>,
) -> (r: (NodeSet, u64))
    requires
        f.contains_key(code0),
        f[code0] == feats0@,
        match feats1 {
            Some(v) => f.contains_key(code1) && f[code1] == v@,
            None => !f.contains_key(code1),
        },
        forall|c: int| 0 <= c < row@.len() ==> covers(f, (code1, #[trigger] row@[c])),
    ensures
        r.0@ == row_keys(code1, row@).union(set![(code0, source_id as u32)]),
        r.1 as int == (row_feature_sum(f, code1, row@) + source_feature(f, code0, source_id as int))
            % word_modulus(),
{
    let mut current_set = NodeSet::new();
    let mut current_result: u64 = 0;
    let n = row.len();
    let ghost seq = row@;
    proof {
        assert(seq.take(0) =~= Seq::<u32>::empty());
    }
    for j in 0..n
        invariant
            n == seq.len(),
            seq == row@,
            match feats1 {
                Some(v) => f.contains_key(code1) && f[code1] == v@,
                None => !f.contains_key(code1),
            },
            forall|c: int| 0 <= c < seq.len() ==> covers(f, (code1, #[trigger] seq[c])),
            current_set@ == row_keys(code1, seq.take(j as int)),
            current_result as int == row_feature_sum(f, code1, seq.take(j as int))
                % word_modulus(),
    {
        let neighbor = row[j];
        current_set.insert((code1, neighbor));
        proof {
            assert(covers(f, (code1, seq[j as int])));
        }
        let fs1 = feats1.unwrap();
        proof {
            assert forall|x: u32|
                seq.take(j + 1).contains(x) <==> (seq.take(j as int).contains(x) || x
                    == seq[j as int]) by {
                lemma_take_contains(seq, j as int, x);
            }
            assert(current_set@ =~= row_keys(code1, seq.take(j + 1)));
            assert(seq.take(j + 1).drop_last() =~= seq.take(j as int));
            assert(seq[j as int] == neighbor);
            lemma_wrap_add(
                current_result as int,
                fs1@[neighbor as int] as int,
                row_feature_sum(f, code1, seq.take(j as int)),
            );
        }
        current_result = current_result.wrapping_add(fs1[neighbor as usize]);
    }
    proof {
        assert(seq.take(n as int) =~= seq);
    }
    current_set.insert((code0, source_id as u32));
    let own: u64 = if source_id < feats0.len() {
        feats0[source_id]
    } else {
        0
    };
    proof {
        lemma_wrap_add(
            current_result as int,
            own as int,
            row_feature_sum(f, code1, seq),
        );
    }
    current_result = current_result.wrapping_add(own);
    (current_set, current_result)
}

/// The context and aggregate of a source node on an earlier step of a
/// metapath, from the contexts and aggregates of its neighbours along the
/// metapath's remainder.
fn aggregate_row<NodeType: NodeLayer>(
    row: &[u32],
    source_id: usize,
    code0: u32,
    code1: u32,
    feats0: Option<&Vec<u64>>,
    feats1: Option<&Vec<u64>>,
    previous_contexts: &Vec<NodeSet>,
    previous_results: &Vec<u64>,
    node_features: &FeatureMap,
    Ghost(g): Ghost<HeteroGraph>,
    Ghost(rest): Ghost<Seq<NodeType>>,
) -> (r: (NodeSet, u64))
    requires
        rest.len() >= 2,
        rest[0].code_spec() == code1,
        match feats0 {
            Some(v) => node_features@.contains_key(code0) && node_features@[code0] == v@,
            None => !node_features@.contains_key(code0),
        },
        match feats1 {
            Some(v) => node_features@.contains_key(code1) && node_features@[code1] == v@,
            None => !node_features@.contains_key(code1),
        },
        forall|j: int|
            0 <= j < row@.len() && first_rows(g, rest).len() <= (#[trigger] row@[j] as int)
                ==> node_features@.contains_key(code1),
        forall|j: int, x: NodeKey|
            #![trigger design_union(g, rest, row@.take(j)).contains(x), design_context(g, rest, row@[j] as int).contains(x)]
            0 < j < row@.len() && (row@[j] as int) < first_rows(g, rest).len() && design_union(
                g,
                rest,
                row@.take(j),
            ).contains(x) && design_context(g, rest, row@[j] as int).contains(x) ==> covers(
                node_features@,
                x,
            ),
        !design_union(g, rest, row@).contains((code0, source_id as u32)) ==> covers(
            node_features@,
            (code0, source_id as u32),
        ),
        source_id <= u32::MAX,
        previous_contexts@.len() == first_rows(g, rest).len(),
        previous_results@.len() == first_rows(g, rest).len(),
        forall|s: int|
            0 <= s < previous_contexts@.len() ==> (#[trigger] previous_contexts@[s])@
                == design_context(g, rest, s),
        forall|s: int|
            0 <= s < previous_results@.len() ==> (#[trigger] previous_results@[s]) as int
                == agg_value(g, rest, node_features@, s),
    ensures
        r.0@ == design_union(g, rest, row@).union(set![(code0, source_id as u32)]),
        r.1 as int == (feature_sum(node_features@, r.0@) + agg_error(
            g,
            rest,
            node_features@,
            row@,
        )) % word_modulus(),
{
    let ghost f = node_features@;
    let prev_len = previous_contexts.len();
    let mut new_context = NodeSet::new();
    let mut new_result: u64 = 0;
    let n = row.len();
    let ghost seq = row@;
    proof {
        assert(seq.take(0) =~= Seq::<u32>::empty());
        lemma_feature_sum_empty(f);
    }
    for j in 0..n
        invariant
            n == seq.len(),
            seq == row@,
            f == node_features@,
            rest.len() >= 2,
            rest[0].code_spec() == code1,
            match feats1 {
                Some(v) => f.contains_key(code1) && f[code1] == v@,
                None => !f.contains_key(code1),
            },
            forall|q: int|
                0 <= q < seq.len() && first_rows(g, rest).len() <= (#[trigger] seq[q] as int)
                    ==> f.contains_key(code1),
            forall|q: int, x: NodeKey|
                #![trigger design_union(g, rest, seq.take(q)).contains(x), design_context(g, rest, seq[q] as int).contains(x)]
                0 < q < seq.len() && (seq[q] as int) < first_rows(g, rest).len() && design_union(
                    g,
                    rest,
                    seq.take(q),
                ).contains(x) && design_context(g, rest, seq[q] as int).contains(x) ==> covers(f, x),
            prev_len == previous_contexts@.len(),
            previous_contexts@.len() == first_rows(g, rest).len(),
            previous_results@.len() == first_rows(g, rest).len(),
            forall|s: int|
                0 <= s < previous_contexts@.len() ==> (#[trigger] previous_contexts@[s])@
                    == design_context(g, rest, s),
            forall|s: int|
                0 <= s < previous_results@.len() ==> (#[trigger] previous_results@[s]) as int
                    == agg_value(g, rest, f, s),
            new_context@ == design_union(g, rest, seq.take(j as int)),
            new_context@.finite(),
            new_result as int == (feature_sum(f, new_context@) + agg_error(
                g,
                rest,
                f,
                seq.take(j as int),
            )) % word_modulus(),
            new_context@ == Set::<NodeKey>::empty() ==> new_result == 0,
    {
        let neighbor = row[j];
        let ghost before = new_context@;
        let ghost err = agg_error(g, rest, f, seq.take(j as int));
        proof {
            assert(seq.take(j + 1).drop_last() =~= seq.take(j as int));
            assert(seq[j as int] == neighbor);
        }
        if (neighbor as usize) < prev_len {
            let pre_context = &previous_contexts[neighbor as usize];
            let pre_result = previous_results[neighbor as usize];
            let ghost pre = design_context(g, rest, neighbor as int);
            proof {
                assert(pre_context@ == pre);
                lemma_design_context_finite(g, rest, neighbor as int);
                assert(pre.contains((rest[0].code_spec(), neighbor)));
            }
            let current_size = new_context.len();
            if current_size == 0 {
                proof {
                    assert(before =~= Set::<NodeKey>::empty());
                    lemma_feature_sum_empty(f);
                    assert(new_result == 0);
                    assert(err % word_modulus() == 0);
                    let x = feature_sum(f, pre);
                    assert((x + err + pre_result - x) % word_modulus() == pre_result as int)
                        by (nonlinear_arith)
                        requires
                            err % word_modulus() == 0,
                            0 <= pre_result < word_modulus(),
                            word_modulus() == 0x1_0000_0000_0000_0000,
                    ;
                    assert(before.union(pre) =~= pre);
                }
                new_context = pre_context.duplicate();
                new_result = pre_result;
            } else {
                proof {
                    if j == 0 {
                        assert(seq.take(0) =~= Seq::<u32>::empty());
                        assert(before =~= Set::<NodeKey>::empty());
                    }
                    assert forall|x: NodeKey|
                        #[trigger] pre_context@.contains(x) && before.contains(x) implies covers(
                        f,
                        x,
                    ) by {
                        assert(design_union(g, rest, seq.take(j as int)).contains(x));
                        assert(design_context(g, rest, seq[j as int] as int).contains(x));
                    }
                }
                merge_context(
                    &mut new_context,
                    &mut new_result,
                    pre_context,
                    pre_result,
                    node_features,
                    Ghost(err),
                );
            }
            proof {
                assert(new_context@ =~= design_union(g, rest, seq.take(j + 1)));
                assert(new_context@.contains((rest[0].code_spec(), neighbor)));
            }
        } else {
            let inserted = new_context.insert((code1, neighbor));
            proof {
                lemma_feature_sum_insert(f, before, (code1, neighbor));
                assert(new_context@ =~= design_union(g, rest, seq.take(j + 1)));
                assert(new_context@.contains((code1, neighbor)));
            }
            if inserted {
                proof {
                    assert(f.contains_key(code1));
                }
                let fs1 = feats1.unwrap();
                let v: u64 = if (neighbor as usize) < fs1.len() {
                    fs1[neighbor as usize]
                } else {
                    0
                };
                proof {
                    assert(v as int == feat(f, (code1, neighbor)));
                    lemma_wrap_add(
                        new_result as int,
                        v as int,
                        feature_sum(f, before) + err,
                    );
                }
                new_result = new_result.wrapping_add(v);
            }
        }
    }
    proof {
        assert(seq.take(n as int) =~= seq);
    }
    let own = (code0, source_id as u32);
    let ghost before = new_context@;
    let inserted = new_context.insert(own);
    proof {
        lemma_feature_sum_insert(f, before, own);
    }
    if inserted {
        proof {
            assert(covers(f, own));
        }
        let fs0 = feats0.unwrap();
        proof {
            assert((source_id as u32) as int == source_id as int);
            assert(feat(f, own) == fs0@[source_id as int] as int);
            lemma_wrap_add(
                new_result as int,
                fs0@[source_id as int] as int,
                feature_sum(f, before) + agg_error(g, rest, f, seq),
            );
        }
        new_result = new_result.wrapping_add(fs0[source_id]);
    }
    (new_context, new_result)
}

/// The context of every node of the first matrix of a metapath, built from
/// the contexts of the metapath's remainder, together with the aggregate of
/// its node features.
pub fn build_context_and_aggregation<NodeType: NodeLayer>(
    hetero_graph: &HeteroGraph,
    metapath: &[NodeType],
    node_features: &FeatureMap,
) -> (r: (Vec<NodeSet>, Vec<u64>))
    requires
        hetero_graph.wf(),
        path_in_graph(*hetero_graph, metapath@),
        agg_defined(*hetero_graph, metapath@, node_features@),
    ensures
        r.0@.len() == first_rows(*hetero_graph, metapath@).len(),
        r.1@.len() == first_rows(*hetero_graph, metapath@).len(),
        forall|s: int|
            0 <= s < r.0@.len() ==> (#[trigger] r.0@[s])@ == design_context(
                *hetero_graph,
                metapath@,
                s,
            ),
        forall|s: int|
            0 <= s < r.1@.len() ==> (#[trigger] r.1@[s]) as int == agg_value(
                *hetero_graph,
                metapath@,
                node_features@,
                s,
            ),
    decreases metapath@.len(),
{
    let ghost g = *hetero_graph;
    let ghost mp = metapath@;
    let ghost f = node_features@;
    let len = metapath.len();
    assert(has_step(g, mp, 0));
    proof {
        crate::graph::lemma_subgraph_wf(g, mp[0].name_spec(), mp[1].name_spec());
    }
    let sub_graph = hetero_graph.get(&metapath[0].name(), &metapath[1].name()).unwrap();
    let rows = sub_graph.rows();
    let ghost rows_spec = first_rows(g, mp);
    let code0 = metapath[0].code();
    let code1 = metapath[1].code();
    let feats0 = node_features.get(code0);
    let feats1 = node_features.get(code1);
    let mut contexts: Vec<NodeSet> = Vec::new();
    let mut results: Vec<u64> = Vec::new();
    if len == 2 {
        for source_id in 0..rows
            invariant
                rows == rows_spec.len(),
                rows_spec == sub_graph.rows_spec(),
                rows_spec == first_rows(g, mp),
                sub_graph.wf(),
                mp == metapath@,
                g == *hetero_graph,
                f == node_features@,
                mp.len() == 2,
                code0 == mp[0].code_spec(),
                code1 == mp[1].code_spec(),
                agg_defined(g, mp, f),
                match feats0 {
                    Some(v) => f.contains_key(code0) && f[code0] == v@,
                    None => !f.contains_key(code0),
                },
                match feats1 {
                    Some(v) => f.contains_key(code1) && f[code1] == v@,
                    None => !f.contains_key(code1),
                },
                contexts@.len() == source_id,
                results@.len() == source_id,
                forall|s: int|
                    0 <= s < source_id ==> (#[trigger] contexts@[s])@ == design_context(g, mp, s),
                forall|s: int|
                    0 <= s < source_id ==> (#[trigger] results@[s]) as int == agg_value(
                        g,
                        mp,
                        f,
                        s,
                    ),
        {
            let row_vec = sub_graph.row(source_id).unwrap();
            proof {
                assert forall|c: int| 0 <= c < row_vec@.len() implies covers(
                    f,
                    (code1, #[trigger] row_vec@[c]),
                ) by {
                    assert(covers(f, (mp[1].code_spec(), rows_spec[source_id as int][c])));
                }
            }
            let (current_set, current_result) = aggregate_last_step_row(
                row_vec,
                source_id,
                code0,
                code1,
                feats0.unwrap(),
                feats1,
                Ghost(f),
            );
            proof {
                assert(current_set@ =~= design_context(g, mp, source_id as int));
            }
            contexts.push(current_set);
            results.push(current_result);
        }
    } else {
        let rest = &metapath[1..len];
        let ghost rest_mp = rest@;
        proof {
            assert(rest_mp =~= mp.drop_first());
            lemma_path_in_graph_rest(g, mp);
            assert(agg_defined(g, rest_mp, f));
        }
        let (previous_contexts, previous_results) = build_context_and_aggregation(
            hetero_graph,
            rest,
            node_features,
        );
        for source_id in 0..rows
            invariant
                rows == rows_spec.len(),
                rows_spec == sub_graph.rows_spec(),
                rows_spec == first_rows(g, mp),
                sub_graph.wf(),
                mp == metapath@,
                g == *hetero_graph,
                f == node_features@,
                mp.len() > 2,
                rest_mp == mp.drop_first(),
                code0 == mp[0].code_spec(),
                code1 == mp[1].code_spec(),
                agg_defined(g, mp, f),
                match feats0 {
                    Some(v) => f.contains_key(code0) && f[code0] == v@,
                    None => !f.contains_key(code0),
                },
                match feats1 {
                    Some(v) => f.contains_key(code1) && f[code1] == v@,
                    None => !f.contains_key(code1),
                },
                previous_contexts@.len() == first_rows(g, rest_mp).len(),
                previous_results@.len() == first_rows(g, rest_mp).len(),
                forall|s: int|
                    0 <= s < previous_contexts@.len() ==> (#[trigger] previous_contexts@[s])@
                        == design_context(g, rest_mp, s),
                forall|s: int|
                    0 <= s < previous_results@.len() ==> (#[trigger] previous_results@[s]) as int
                        == agg_value(g, rest_mp, f, s),
                contexts@.len() == source_id,
                results@.len() == source_id,
                forall|s: int|
                    0 <= s < source_id ==> (#[trigger] contexts@[s])@ == design_context(g, mp, s),
                forall|s: int|
                    0 <= s < source_id ==> (#[trigger] results@[s]) as int == agg_value(
                        g,
                        mp,
                        f,
                        s,
                    ),
        {
            let row_vec = sub_graph.row(source_id).unwrap();
            proof {
                assert(agg_row_defined(g, mp, f, source_id as int));
                assert(row_vec@ == rows_spec[source_id as int]);
            }
            let (new_context, new_result) = aggregate_row::<NodeType>(
                row_vec,
                source_id,
                code0,
                code1,
                feats0,
                feats1,
                &previous_contexts,
                &previous_results,
                node_features,
                Ghost(g),
                Ghost(rest_mp),
            );
            proof {
                assert(new_context@ =~= design_context(g, mp, source_id as int));
            }
            contexts.push(new_context);
            results.push(new_result);
        }
    }
    (contexts, results)
}

/// A way of building contexts together with the aggregate of their features.
pub trait BuildContextFnAgg {
    /// The aggregate of the features of the context of every node of the
    /// first matrix of a metapath.
    fn build_context_agg<NodeType: NodeLayer>(
        graph: &HeteroGraph,
        metapath: &[NodeType],
        node_features: &FeatureMap,
    ) -> (r: Vec<u64>)
        requires
            graph.wf(),
            path_in_graph(*graph, metapath@),
            agg_defined(*graph, metapath@, node_features@),
        ensures
            r@.len() == first_rows(*graph, metapath@).len(),
            forall|s: int|
                0 <= s < r@.len() ==> (#[trigger] r@[s]) as int == agg_value(
                    *graph,
                    metapath@,
                    node_features@,
                    s,
                ),
    ;
}

impl BuildContextFnAgg for DesignBuildContextAggFn {
    fn build_context_agg<NodeType: NodeLayer>(
        graph: &HeteroGraph,
        metapath: &[NodeType],
        node_features: &FeatureMap,
    ) -> (r: Vec<u64>) {
        let result = build_context_and_aggregation(graph, metapath, node_features);
        result.1
    }
}

} // verus!
