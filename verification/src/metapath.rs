//! Metapaths and the number of metapath instances in a heterogeneous graph.
use vstd::prelude::*;
use std::collections::BTreeMap;
use vstd::std_specs::convert::FromSpecImpl;
use vstd::std_specs::convert::FromSpec;
use crate::graph::HeteroGraph;

verus! {

/// A metapath: the node type names that its walks pass through, in order.
#[derive(Debug, Clone)]
pub struct Metapath {
    path: Vec<String>,
}

/// A list of metapaths.
#[derive(Debug)]
pub struct MetaPathesPack {
    pub metapathes: Vec<Metapath>,
}

/// The names that a list of strings holds.
pub open spec fn names_of(v: Seq<String>) -> Seq<Seq<char>> {
    v.map_values(|s: String| s@)
}

impl Metapath {
    /// The node type names of the metapath.
    pub closed spec fn names(&self) -> Seq<Seq<char>> {
        names_of(self.path@)
    }

    /// The node type names of the metapath.
    pub fn path(&self) -> (r: &Vec<String>)
        ensures
            names_of(r@) == self.names(),
    {
        &self.path
    }
}

impl From<Vec<String>> for Metapath {
    fn from(path: Vec<String>) -> (r: Metapath) {
        Metapath { path }
    }
}

impl FromSpecImpl<Vec<String>> for Metapath {
    open spec fn obeys_from_spec() -> bool {
        true
    }

    closed spec fn from_spec(v: Vec<String>) -> Metapath {
        Metapath { path: v }
    }
}

/// What `Metapath::from` builds from a list of names has those names.
pub proof fn lemma_metapath_from_names(v: Vec<String>)
    ensures
        <Metapath as FromSpec<Vec<String>>>::from_spec(v).names() == names_of(v@),
{
}

impl From<Vec<Metapath>> for MetaPathesPack {
    fn from(metapathes: Vec<Metapath>) -> (r: MetaPathesPack) {
        MetaPathesPack { metapathes }
    }
}

impl FromSpecImpl<Vec<Metapath>> for MetaPathesPack {
    open spec fn obeys_from_spec() -> bool {
        true
    }

    open spec fn from_spec(v: Vec<Metapath>) -> MetaPathesPack {
        MetaPathesPack { metapathes: v }
    }
}


/// The rows of the matrix for the first step of a metapath.
pub open spec fn step_rows(g: HeteroGraph, names: Seq<Seq<char>>) -> Seq<Seq<u32>> {
    g.adjacency(names[0], names[1])
}

/// The number of walks that start at node `s` of the first type of a
/// metapath and follow the metapath to its end. A start outside the first
/// matrix has none.
pub open spec fn walk_count(g: HeteroGraph, names: Seq<Seq<char>>, s: int) -> nat
    decreases names.len(), 0nat,
{
    if names.len() < 2 {
        0
    } else {
        let rows = step_rows(g, names);
        if !(0 <= s < rows.len()) {
            0
        } else if names.len() == 2 {
            rows[s].len()
        } else {
            walks_through(g, names.drop_first(), rows[s])
        }
    }
}

/// The number of walks along a metapath that start at any of the given
/// nodes, each counted once per occurrence.
pub open spec fn walks_through(g: HeteroGraph, names: Seq<Seq<char>>, row: Seq<u32>) -> nat
    decreases names.len(), row.len(),
{
    if row.len() == 0 {
        0
    } else {
        walks_through(g, names, row.drop_last()) + walk_count(g, names, row.last() as int)
    }
}

/// The number of walks along a metapath that start at nodes `0 .. n` of its
/// first type.
pub open spec fn walks_below(g: HeteroGraph, names: Seq<Seq<char>>, n: nat) -> nat
    decreases n,
{
    if n == 0 {
        0
    } else {
        walks_below(g, names, (n - 1) as nat) + walk_count(g, names, n - 1)
    }
}

/// Counting the walks from `s` reads only what exists: the metapath has two
/// types or more, each step's matrix is in the graph, and a walk's last step
/// starts inside its matrix.
pub open spec fn count_defined(g: HeteroGraph, names: Seq<Seq<char>>, s: int) -> bool
    decreases names.len(), 0nat,
{
    &&& names.len() >= 2
    &&& g.has_edge_type(names[0], names[1])
    &&& {
        let rows = step_rows(g, names);
        if names.len() == 2 {
            0 <= s < rows.len()
        } else {
            0 <= s < rows.len() ==> row_defined(g, names.drop_first(), rows[s])
        }
    }
}

/// Along a sequence of node type names, every step has its matrix in the
/// graph, and every step but the last has no more columns than the next step
/// has rows.
pub open spec fn names_fit(g: HeteroGraph, names: Seq<Seq<char>>) -> bool {
    &&& names.len() >= 2
    &&& forall|i: int| 0 <= i < names.len() - 1 ==> #[trigger] name_step_in(g, names, i)
    &&& forall|i: int| 0 <= i < names.len() - 2 ==> #[trigger] name_step_fits(g, names, i)
}

/// The graph has a matrix for step `i` along the names.
pub open spec fn name_step_in(g: HeteroGraph, names: Seq<Seq<char>>, i: int) -> bool {
    g.has_edge_type(names[i], names[i + 1])
}

/// Step `i` along the names has no more columns than step `i + 1` has rows.
pub open spec fn name_step_fits(g: HeteroGraph, names: Seq<Seq<char>>, i: int) -> bool {
    g.subgraph_spec(names[i], names[i + 1]).unwrap().cols_spec() <= g.adjacency(
        names[i + 1],
        names[i + 2],
    ).len()
}

/// In a well-formed graph whose matrices along a metapath fit together,
/// counting the walks from a node reads only what exists (on a single step,
/// from a node of its matrix).
pub proof fn lemma_fitting_names_count_defined(g: HeteroGraph, names: Seq<Seq<char>>, s: int)
    requires
        g.wf(),
        names_fit(g, names),
        names.len() == 2 ==> 0 <= s < step_rows(g, names).len(),
    ensures
        count_defined(g, names, s),
    decreases names.len(),
{
    assert(name_step_in(g, names, 0));
    let rows = step_rows(g, names);
    if names.len() > 2 && 0 <= s < rows.len() {
        let rest = names.drop_first();
        assert(names_fit(g, rest)) by {
            assert forall|i: int| 0 <= i < rest.len() - 1 implies #[trigger] name_step_in(g, rest, i) by {
                assert(name_step_in(g, names, i + 1));
            }
            assert forall|i: int| 0 <= i < rest.len() - 2 implies #[trigger] name_step_fits(g, rest, i) by {
                assert(name_step_fits(g, names, i + 1));
            }
        }
        crate::graph::lemma_subgraph_wf(g, names[0], names[1]);
        assert(name_step_fits(g, names, 0));
        let row = rows[s];
        assert forall|j: int| 0 <= j < row.len() implies count_defined(
            g,
            rest,
            #[trigger] row[j] as int,
        ) by {
            assert((row[j] as int) < g.subgraph_spec(names[0], names[1]).unwrap().cols_spec());
            lemma_fitting_names_count_defined(g, rest, row[j] as int);
        }
        lemma_row_defined_from_all(g, rest, row);
    }
}

/// In a well-formed graph whose matrices along a metapath fit together,
/// counting the walks from every node of the first matrix reads only what
/// exists.
pub proof fn lemma_fitting_names_count_defined_everywhere(g: HeteroGraph, names: Seq<Seq<char>>)
    requires
        g.wf(),
        names_fit(g, names),
    ensures
        forall|s: int| 0 <= s < step_rows(g, names).len() ==> #[trigger] count_defined(g, names, s),
{
    assert forall|s: int| 0 <= s < step_rows(g, names).len() implies #[trigger] count_defined(
        g,
        names,
        s,
    ) by {
        lemma_fitting_names_count_defined(g, names, s);
    }
}

/// Counting the walks from each of the given nodes reads only what exists.
pub open spec fn row_defined(g: HeteroGraph, names: Seq<Seq<char>>, row: Seq<u32>) -> bool
    decreases names.len(), row.len(),
{
    row.len() == 0 || (row_defined(g, names, row.drop_last()) && count_defined(
        g,
        names,
        row.last() as int,
    ))
}

/// Every entry of a count cache is right for the metapath whose suffixes it
/// counts: the entry for `(s, l)` holds the walks from `s` along the last `l`
/// types of `names`.
pub open spec fn cache_valid(
    g: HeteroGraph,
    names: Seq<Seq<char>>,
    cache: Map<(usize, usize), usize>,
) -> bool {
    forall|k: (usize, usize)|
        #![trigger cache.contains_key(k)]
        cache.contains_key(k) && 2 <= k.1 <= names.len() ==> cache[k] == walk_count(
            g,
            names.skip(names.len() - k.1),
            k.0 as int,
        )
}

/// `new` keeps every entry of `old`, and adds entries only for suffixes of
/// length 2 to `n`.
pub open spec fn cache_grows(
    old: Map<(usize, usize), usize>,
    new: Map<(usize, usize), usize>,
    n: int,
) -> bool {
    &&& forall|k: (usize, usize)|
        #![trigger new.contains_key(k)]
        old.contains_key(k) ==> new.contains_key(k) && new[k] == old[k]
    &&& forall|k: (usize, usize)|
        #![trigger new.contains_key(k)]
        new.contains_key(k) && !old.contains_key(k) ==> 2 <= k.1 <= n
}

/// The cache keys that counting the walks from `s` along `names` adds to a
/// cache that holds the keys `held`: none where `(s, names.len())` is held;
/// otherwise that key, with the keys that counting from each node of `s`'s
/// row adds, one node after the other.
pub open spec fn added_keys(
    g: HeteroGraph,
    names: Seq<Seq<char>>,
    held: Set<(usize, usize)>,
    s: int,
) -> Set<(usize, usize)>
    decreases names.len(), 0nat,
{
    let key = (s as usize, names.len() as usize);
    if held.contains(key) || names.len() < 2 {
        Set::empty()
    } else if names.len() == 2 {
        set![key]
    } else {
        let rows = step_rows(g, names);
        let row = if 0 <= s < rows.len() {
            rows[s]
        } else {
            Seq::empty()
        };
        added_by_row(g, names.drop_first(), held, row).insert(key)
    }
}

/// The cache keys that counting the walks from each node of `row`, in order,
/// adds to a cache that holds the keys `held`.
pub open spec fn added_by_row(
    g: HeteroGraph,
    names: Seq<Seq<char>>,
    held: Set<(usize, usize)>,
    row: Seq<u32>,
) -> Set<(usize, usize)>
    decreases names.len(), row.len(),
{
    if row.len() == 0 {
        Set::empty()
    } else {
        let before = added_by_row(g, names, held, row.drop_last());
        before.union(added_keys(g, names, held.union(before), row.last() as int))
    }
}

proof fn lemma_row_defined_at(g: HeteroGraph, names: Seq<Seq<char>>, row: Seq<u32>, i: int)
    requires
        row_defined(g, names, row),
        0 <= i < row.len(),
    ensures
        count_defined(g, names, row[i] as int),
    decreases row.len(),
{
    if i < row.len() - 1 {
        lemma_row_defined_at(g, names, row.drop_last(), i);
    }
}

proof fn lemma_walks_take(g: HeteroGraph, names: Seq<Seq<char>>, row: Seq<u32>, i: int)
    requires
        0 <= i < row.len(),
    ensures
        walks_through(g, names, row.take(i + 1)) == walks_through(g, names, row.take(i))
            + walk_count(g, names, row[i] as int),
{
    assert(row.take(i + 1).drop_last() =~= row.take(i));
}

proof fn lemma_walks_take_le(g: HeteroGraph, names: Seq<Seq<char>>, row: Seq<u32>, i: int)
    requires
        0 <= i <= row.len(),
    ensures
        walks_through(g, names, row.take(i)) <= walks_through(g, names, row),
    decreases row.len(),
{
    if i == row.len() {
        assert(row.take(i) =~= row);
    } else {
        lemma_walks_take_le(g, names, row.drop_last(), i);
        assert(row.drop_last().take(i) =~= row.take(i));
    }
}

proof fn lemma_cache_valid_suffix(
    g: HeteroGraph,
    names: Seq<Seq<char>>,
    cache: Map<(usize, usize), usize>,
)
    requires
        names.len() >= 1,
        cache_valid(g, names, cache),
    ensures
        cache_valid(g, names.drop_first(), cache),
{
    assert forall|k: (usize, usize)|
        #![trigger cache.contains_key(k)]
        cache.contains_key(k) && 2 <= k.1 <= names.drop_first().len() implies cache[k]
        == walk_count(g, names.drop_first().skip(names.drop_first().len() - k.1), k.0 as int) by {
        assert(names.drop_first().skip(names.drop_first().len() - k.1) =~= names.skip(
            names.len() - k.1,
        ));
    }
}

proof fn lemma_walks_through_is_sum(g: HeteroGraph, names: Seq<Seq<char>>, row: Seq<u32>)
    ensures
        walks_through(g, names, row) == row.fold_left(
            0int,
            |acc: int, c: u32| acc + walk_count(g, names, c as int),
        ),
    decreases row.len(),
{
    if row.len() > 0 {
        lemma_walks_through_is_sum(g, names, row.drop_last());
    }
}

/// What the walk count of a metapath is, step by step: on a single step, the
/// number of nodes that the start's row lists, whatever the start's id; on a
/// longer metapath, the sum over the start's row of the walk counts along the
/// metapath's remainder; from a start without a row, none.
pub proof fn lemma_walk_count_by_rows(g: HeteroGraph, names: Seq<Seq<char>>, s: int)
    requires
        names.len() >= 2,
    ensures
        names.len() == 2 && 0 <= s < g.adjacency(names[0], names[1]).len() ==> walk_count(
            g,
            names,
            s,
        ) == g.adjacency(names[0], names[1])[s].len(),
        names.len() > 2 && 0 <= s < g.adjacency(names[0], names[1]).len() ==> walk_count(
            g,
            names,
            s,
        ) == g.adjacency(names[0], names[1])[s].fold_left(
            0int,
            |acc: int, c: u32| acc + walk_count(g, names.drop_first(), c as int),
        ),
        !(0 <= s < g.adjacency(names[0], names[1]).len()) ==> walk_count(g, names, s) == 0,
{
    if names.len() > 2 && 0 <= s < g.adjacency(names[0], names[1]).len() {
        lemma_walks_through_is_sum(g, names.drop_first(), g.adjacency(names[0], names[1])[s]);
    }
}

/// The walks below `n` add up the walks from each start before `n`.
pub proof fn lemma_walks_below_is_sum(g: HeteroGraph, names: Seq<Seq<char>>, n: nat)
    ensures
        walks_below(g, names, 0) == 0,
        walks_below(g, names, n + 1) == walks_below(g, names, n) + walk_count(g, names, n as int),
{
}

/// A metapath of three types or more whose first matrix is in the graph and
/// has no row for `s`.
pub open spec fn past_first_matrix(g: HeteroGraph, names: Seq<Seq<char>>, s: int) -> bool {
    &&& names.len() >= 3
    &&& g.has_edge_type(names[0], names[1])
    &&& s >= step_rows(g, names).len()
}

/// The number of walks that start at `start_node` and follow
/// `partial_metapath`. Counts are memoised in `count_cache` by start node and
/// path length. Where the cache holds `(start_node, partial_metapath.len())`
/// that entry is returned, whatever it is. Otherwise, on a metapath of three
/// types or more whose first matrix has no row for `start_node`, the count is
/// zero and only that entry is added, whatever the cache holds. Otherwise the
/// cache must hold only right counts of suffixes of `partial_metapath`; the
/// count is made, and the cache gains an entry for each
/// `(node, suffix length)` that counting visited and did not find in it.
pub fn count_partial_metapath_count(
    graph: &HeteroGraph,
    partial_metapath: &[String],
    start_node: usize,
    count_cache: &mut BTreeMap<(usize, usize), usize>,
) -> (count: usize)
    requires
        old(count_cache)@.contains_key((start_node, partial_metapath@.len() as usize))
            || past_first_matrix(*graph, names_of(partial_metapath@), start_node as int) || {
            &&& count_defined(*graph, names_of(partial_metapath@), start_node as int)
            &&& walk_count(*graph, names_of(partial_metapath@), start_node as int) <= usize::MAX
            &&& cache_valid(*graph, names_of(partial_metapath@), old(count_cache)@)
        },
    ensures
        old(count_cache)@.contains_key((start_node, partial_metapath@.len() as usize)) ==> count
            == old(count_cache)@[(start_node, partial_metapath@.len() as usize)] 
            && final(count_cache)@ == old(count_cache)@,
        !old(count_cache)@.contains_key((start_node, partial_metapath@.len() as usize))
            && past_first_matrix(*graph, names_of(partial_metapath@), start_node as int) ==> count
            == 0 && final(count_cache)@ == old(count_cache)@.insert(
            (start_node, partial_metapath@.len() as usize),
            0,
        ),
        !old(count_cache)@.contains_key((start_node, partial_metapath@.len() as usize))
            && cache_valid(*graph, names_of(partial_metapath@), old(count_cache)@) ==> {
            &&& count == walk_count(*graph, names_of(partial_metapath@), start_node as int)
            &&& final(count_cache)@.contains_key((start_node, partial_metapath@.len() as usize))
            &&& final(count_cache)@[(start_node, partial_metapath@.len() as usize)] == count
            &&& cache_valid(*graph, names_of(partial_metapath@), final(count_cache)@)
        },
        final(count_cache)@.dom() == old(count_cache)@.dom().union(
            added_keys(*graph, names_of(partial_metapath@), old(count_cache)@.dom(), start_node as int),
        ),
        cache_valid(*graph, names_of(partial_metapath@), old(count_cache)@)
            && partial_metapath@.len() >= 2 ==> {
            &&& count == walk_count(*graph, names_of(partial_metapath@), start_node as int)
            &&& cache_valid(*graph, names_of(partial_metapath@), final(count_cache)@)
            &&& cache_grows(old(count_cache)@, final(count_cache)@, partial_metapath@.len() as int)
        },
    decreases partial_metapath@.len(),
{
    let ghost names = names_of(partial_metapath@);
    let len = partial_metapath.len();
    let cached: Option<usize> = match count_cache.get(&(start_node, len)) {
        Some(c) => Some(*c),
        None => None,
    };
    if let Some(c) = cached {
        proof {
            assert(count_cache@.contains_key((start_node, len)));
            assert(names.skip(0) =~= names);
            assert(count_cache@.dom().union(
                added_keys(*graph, names, count_cache@.dom(), start_node as int),
            ) =~= count_cache@.dom());
        }
        return c;
    }
    let ghost held = old(count_cache)@.dom();
    let ghost key = (start_node, len);
    let ghost rows = step_rows(*graph, names);
    let ghost row_s: Seq<u32> = if 0 <= start_node < rows.len() {
        rows[start_node as int]
    } else {
        Seq::empty()
    };
    let sub_graph = graph.get(&partial_metapath[0], &partial_metapath[1]).unwrap();
    let count: usize;
    if len == 2 {
        let neighbers = sub_graph.row(start_node).unwrap();
        count = neighbers.len();
        proof {
            assert(count_cache@.dom() =~= held.union(
                added_keys(*graph, names, held, start_node as int).remove(key),
            ));
        }
    } else {
        let rest = &partial_metapath[1..len];
        let ghost rest_names = names_of(rest@);
        proof {
            assert(rest_names =~= names.drop_first());
        }
        let mut total: usize = 0;
        match sub_graph.row(start_node) {
            Some(neighbers) => {
                proof {
                    assert(!past_first_matrix(*graph, names, start_node as int));
                    lemma_cache_valid_suffix(*graph, names, count_cache@);
                }
                let n = neighbers.len();
                let ghost row = neighbers@;
                let ghost before = count_cache@;
                assert(before == old(count_cache)@);
                assert(row.take(0) =~= Seq::<u32>::empty());
                assert(before.dom() =~= before.dom().union(
                    added_by_row(*graph, rest_names, before.dom(), row.take(0)),
                ));
                for i in 0..n
                    invariant
                        n == row.len(),
                        row == neighbers@,
                        rest_names == names_of(rest@),
                        rest@.len() == len - 1,
                        len == partial_metapath@.len(),
                        len >= 3,
                        row_defined(*graph, rest_names, row),
                        walks_through(*graph, rest_names, row) <= usize::MAX,
                        total == walks_through(*graph, rest_names, row.take(i as int)),
                        cache_valid(*graph, rest_names, count_cache@),
                        cache_grows(before, count_cache@, len - 1),
                        count_cache@.dom() == before.dom().union(
                            added_by_row(*graph, rest_names, before.dom(), row.take(i as int)),
                        ),
                {
                    proof {
                        lemma_row_defined_at(*graph, rest_names, row, i as int);
                        lemma_walks_take(*graph, rest_names, row, i as int);
                        lemma_walks_take_le(*graph, rest_names, row, i + 1);
                    }
                    let ghost mid = count_cache@;
                    let ghost done = added_by_row(*graph, rest_names, before.dom(), row.take(i as int));
                    let c = count_partial_metapath_count(
                        graph,
                        rest,
                        neighbers[i] as usize,
                        count_cache,
                    );
                    total = total + c;
                    proof {
                        assert forall|k: (usize, usize)|
                            #![trigger count_cache@.contains_key(k)]
                            count_cache@.contains_key(k) && !before.contains_key(k) implies 2 <= k.1
                            <= len - 1 by {
                            if mid.contains_key(k) {
                            }
                        }
                        let next = row.take(i + 1);
                        assert(next.drop_last() =~= row.take(i as int));
                        assert(next.last() == row[i as int]);
                        assert(count_cache@.dom() =~= before.dom().union(
                            added_by_row(*graph, rest_names, before.dom(), next),
                        ));
                    }
                }
                assert(row.take(n as int) =~= row);
                proof {
                    assert(row == row_s);
                    assert(count_cache@.dom() =~= held.union(
                        added_keys(*graph, names, held, start_node as int).remove(key),
                    ));
                }
            },
            None => {
                proof {
                    assert(row_s =~= Seq::<u32>::empty());
                    assert(count_cache@.dom() =~= held.union(
                        added_keys(*graph, names, held, start_node as int).remove(key),
                    ));
                }
            },
        }
        count = total;
    }
    let ghost pre_insert = count_cache@;
    count_cache.insert((start_node, len), count);
    proof {
        let c = count_cache@;
        if past_first_matrix(*graph, names, start_node as int) {
            assert(count == 0);
            assert(c =~= old(count_cache)@.insert(key, 0));
        }
        assert(c.dom() =~= held.union(added_keys(*graph, names, held, start_node as int)));
        assert forall|k: (usize, usize)|
            #![trigger c.contains_key(k)]
            c.contains_key(k) && !old(count_cache)@.contains_key(k) implies 2 <= k.1 <= len by {
            if k != (start_node, len) {
                assert(pre_insert.contains_key(k));
            }
        }
        if cache_valid(*graph, names, old(count_cache)@) {
            assert forall|k: (usize, usize)|
                #![trigger c.contains_key(k)]
                c.contains_key(k) && 2 <= k.1 <= names.len() implies c[k] == walk_count(
                    *graph,
                    names.skip(names.len() - k.1),
                    k.0 as int,
                ) by {
                if k == (start_node, len) {
                    assert(names.skip(0) =~= names);
                } else if old(count_cache)@.contains_key(k) {
                    assert(pre_insert.contains_key(k));
                } else {
                    assert(pre_insert.contains_key(k));
                    assert(k.1 <= len - 1);
                    assert(names.drop_first().skip(names.drop_first().len() - k.1) =~= names.skip(
                        names.len() - k.1,
                    ));
                }
            }
        }
    }
    proof {
        let c = count_cache@;
        assert forall|k: (usize, usize)|
            #![trigger c.contains_key(k)]
            old(count_cache)@.contains_key(k) implies c.contains_key(k) && c[k] == old(count_cache)@[k] by {
            assert(pre_insert.contains_key(k));
            assert(k != (start_node, len));
        }
        assert(cache_grows(old(count_cache)@, c, len as int));
    }
    count
}

/// The memory that the instances of a metapath take: four bytes for each
/// walk along it, over all start nodes of its first matrix.
pub fn count_metapath_memory_usage(graph: &HeteroGraph, metapath: &Metapath) -> (usage: usize)
    requires
        metapath.names().len() >= 2,
        graph.has_edge_type(metapath.names()[0], metapath.names()[1]),
        forall|i: int|
            0 <= i < step_rows(*graph, metapath.names()).len() ==> #[trigger] count_defined(
                *graph,
                metapath.names(),
                i,
            ),
        4 * walks_below(
            *graph,
            metapath.names(),
            step_rows(*graph, metapath.names()).len(),
        ) <= usize::MAX,
    ensures
        usage == 4 * walks_below(
            *graph,
            metapath.names(),
            step_rows(*graph, metapath.names()).len(),
        ),
{
    let ghost names = metapath.names();
    let path = metapath.path.as_slice();
    assert(names_of(path@) =~= names);
    let first_graph = graph.get(&path[0], &path[1]).unwrap();
    let rows = first_graph.rows();
    let mut count_cache: BTreeMap<(usize, usize), usize> = BTreeMap::new();
    let mut count: usize = 0;
    proof {
        lemma_walks_below_mono(*graph, names, 0, rows as nat);
    }
    assert(path@.len() == names.len());
    for i in 0..rows
        invariant
            names_of(path@) == names,
            path@.len() == names.len(),
            names.len() >= 2,
            rows == step_rows(*graph, names).len(),
            forall|j: int| 0 <= j < rows ==> #[trigger] count_defined(*graph, names, j),
            4 * walks_below(*graph, names, rows as nat) <= usize::MAX,
            count == walks_below(*graph, names, i as nat),
            cache_valid(*graph, names, count_cache@),
    {
        proof {
            lemma_walks_below_mono(*graph, names, (i + 1) as nat, rows as nat);
        }
        let c = count_partial_metapath_count(graph, path, i, &mut count_cache);
        count = count + c;
    }
    count * 4
}

/// A count cache whose entries are right and come from counts that read
/// only what exists and fit a `usize`.
pub open spec fn cache_sound(
    g: HeteroGraph,
    names: Seq<Seq<char>>,
    cache: Map<(usize, usize), usize>,
) -> bool {
    &&& cache_valid(g, names, cache)
    &&& forall|k: (usize, usize)|
        #![trigger cache.contains_key(k)]
        cache.contains_key(k) && 2 <= k.1 <= names.len() ==> count_defined(
            g,
            names.skip(names.len() - k.1),
            k.0 as int,
        )
}

/// The count of walks from `s`, where counting them reads only what exists
/// and the count fits a `usize`.
pub open spec fn checked_walk_count(g: HeteroGraph, names: Seq<Seq<char>>, s: int) -> Option<
    usize,
> {
    if count_defined(g, names, s) && walk_count(g, names, s) <= usize::MAX {
        Some(walk_count(g, names, s) as usize)
    } else {
        None
    }
}

proof fn lemma_row_defined_from_all(g: HeteroGraph, names: Seq<Seq<char>>, row: Seq<u32>)
    requires
        forall|i: int| 0 <= i < row.len() ==> count_defined(g, names, #[trigger] row[i] as int),
    ensures
        row_defined(g, names, row),
    decreases row.len(),
{
    if row.len() > 0 {
        let init = row.drop_last();
        assert forall|i: int| 0 <= i < init.len() implies count_defined(
            g,
            names,
            #[trigger] init[i] as int,
        ) by {
            assert(init[i] == row[i]);
        }
        lemma_row_defined_from_all(g, names, init);
        assert(count_defined(g, names, row[row.len() - 1] as int));
    }
}

proof fn lemma_cache_sound_suffix(
    g: HeteroGraph,
    names: Seq<Seq<char>>,
    cache: Map<(usize, usize), usize>,
)
    requires
        names.len() >= 1,
        cache_sound(g, names, cache),
    ensures
        cache_sound(g, names.drop_first(), cache),
{
    lemma_cache_valid_suffix(g, names, cache);
    assert forall|k: (usize, usize)|
        #![trigger cache.contains_key(k)]
        cache.contains_key(k) && 2 <= k.1 <= names.drop_first().len() implies count_defined(
        g,
        names.drop_first().skip(names.drop_first().len() - k.1),
        k.0 as int,
    ) by {
        assert(names.drop_first().skip(names.drop_first().len() - k.1) =~= names.skip(
            names.len() - k.1,
        ));
    }
}

proof fn lemma_cache_sound_lift(
    g: HeteroGraph,
    names: Seq<Seq<char>>,
    old: Map<(usize, usize), usize>,
    new: Map<(usize, usize), usize>,
)
    requires
        names.len() >= 1,
        cache_sound(g, names, old),
        cache_sound(g, names.drop_first(), new),
        cache_grows(old, new, names.len() - 1),
    ensures
        cache_sound(g, names, new),
{
    assert forall|k: (usize, usize)|
        #![trigger new.contains_key(k)]
        new.contains_key(k) && 2 <= k.1 <= names.len() implies new[k] == walk_count(
        g,
        names.skip(names.len() - k.1),
        k.0 as int,
    ) && count_defined(g, names.skip(names.len() - k.1), k.0 as int) by {
        if old.contains_key(k) {
        } else {
            assert(names.drop_first().skip(names.drop_first().len() - k.1) =~= names.skip(
                names.len() - k.1,
            ));
        }
    }
}

/// The number of walks from `start_node` along `partial_metapath`, or `None`
/// where counting them would read a matrix or a row that does not exist, or
/// the count does not fit a `usize`.
#[verifier::spinoff_prover]
#[verifier::rlimit(40)]
fn count_partial_checked(
    graph: &HeteroGraph,
    partial_metapath: &[String],
    start_node: usize,
    count_cache: &mut BTreeMap<(usize, usize), usize>,
) -> (count: Option<usize>)
    requires
        partial_metapath@.len() >= 2,
        cache_sound(*graph, names_of(partial_metapath@), old(count_cache)@),
    ensures
        count == checked_walk_count(*graph, names_of(partial_metapath@), start_node as int),
        cache_sound(*graph, names_of(partial_metapath@), final(count_cache)@),
        cache_grows(old(count_cache)@, final(count_cache)@, partial_metapath@.len() as int),
    decreases partial_metapath@.len(),
{
    let ghost names = names_of(partial_metapath@);
    let len = partial_metapath.len();
    let cached: Option<usize> = match count_cache.get(&(start_node, len)) {
        Some(c) => Some(*c),
        None => None,
    };
    if let Some(c) = cached {
        proof {
            assert(count_cache@.contains_key((start_node, len)));
            assert(names.skip(0) =~= names);
        }
        return Some(c);
    }
    let sub_graph = match graph.get(&partial_metapath[0], &partial_metapath[1]) {
        Some(m) => m,
        None => {
            return None;
        },
    };
    let count: usize;
    if len == 2 {
        match sub_graph.row(start_node) {
            Some(neighbers) => {
                count = neighbers.len();
            },
            None => {
                return None;
            },
        }
    } else {
        let rest = &partial_metapath[1..len];
        let ghost rest_names = names_of(rest@);
        proof {
            assert(rest_names =~= names.drop_first());
            lemma_cache_sound_suffix(*graph, names, count_cache@);
        }
        let mut total: usize = 0;
        match sub_graph.row(start_node) {
            Some(neighbers) => {
                let n = neighbers.len();
                let ghost row = neighbers@;
                let ghost before = count_cache@;
                assert(before == old(count_cache)@);
                assert(row.take(0) =~= Seq::<u32>::empty());
                assert(walk_count(*graph, names, start_node as int) == walks_through(
                    *graph,
                    rest_names,
                    row,
                ));
                assert(count_defined(*graph, names, start_node as int) == row_defined(
                    *graph,
                    rest_names,
                    row,
                ));
                for i in 0..n
                    invariant
                        walk_count(*graph, names, start_node as int) == walks_through(
                            *graph,
                            rest_names,
                            row,
                        ),
                        count_defined(*graph, names, start_node as int) == row_defined(
                            *graph,
                            rest_names,
                            row,
                        ),
                        n == row.len(),
                        row == neighbers@,
                        rest_names == names_of(rest@),
                        rest_names == names.drop_first(),
                        names == names_of(partial_metapath@),
                        cache_sound(*graph, names, before),
                        before == old(count_cache)@,
                        rest@.len() == len - 1,
                        len == partial_metapath@.len(),
                        len >= 3,
                        forall|m: int|
                            0 <= m < i ==> count_defined(*graph, rest_names, #[trigger] row[m] as int),
                        total == walks_through(*graph, rest_names, row.take(i as int)),
                        cache_sound(*graph, rest_names, count_cache@),
                        cache_grows(before, count_cache@, len - 1),
                {
                    proof {
                        lemma_walks_take(*graph, rest_names, row, i as int);
                        lemma_walks_take_le(*graph, rest_names, row, i + 1);
                    }
                    let ghost mid = count_cache@;
                    let c = count_partial_checked(
                        graph,
                        rest,
                        neighbers[i] as usize,
                        count_cache,
                    );
                    proof {
                        assert forall|k: (usize, usize)|
                            #![trigger count_cache@.contains_key(k)]
                            count_cache@.contains_key(k) && !before.contains_key(k) implies k.1
                            <= len - 1 by {
                            if mid.contains_key(k) {
                            }
                        }
                    }
                    match c {
                        Some(c) => {
                            match total.checked_add(c) {
                                Some(t) => {
                                    total = t;
                                },
                                None => {
                                    proof {
                                        lemma_cache_sound_lift(
                                            *graph,
                                            names,
                                            before,
                                            count_cache@,
                                        );
                                        assert(walks_through(*graph, rest_names, row) > usize::MAX);
                                    }
                                    return None;
                                },
                            }
                        },
                        None => {
                            proof {
                                lemma_cache_sound_lift(
                                    *graph,
                                    names,
                                    before,
                                    count_cache@,
                                );
                                if row_defined(*graph, rest_names, row) {
                                    lemma_row_defined_at(*graph, rest_names, row, i as int);
                                }
                            }
                            return None;
                        },
                    }
                }
                assert(row.take(n as int) =~= row);
                proof {
                    lemma_row_defined_from_all(*graph, rest_names, row);
                }
            },
            None => {},
        }
        count = total;
    }
    let ghost pre_insert = count_cache@;
    count_cache.insert((start_node, len), count);
    proof {
        let c = count_cache@;
        assert forall|k: (usize, usize)|
            #![trigger c.contains_key(k)]
            c.contains_key(k) && 2 <= k.1 <= names.len() implies c[k] == walk_count(
                *graph,
                names.skip(names.len() - k.1),
                k.0 as int,
            ) && count_defined(*graph, names.skip(names.len() - k.1), k.0 as int) by {
            if k == (start_node, len) {
                assert(names.skip(0) =~= names);
            } else if old(count_cache)@.contains_key(k) {
                assert(pre_insert.contains_key(k));
            } else {
                assert(pre_insert.contains_key(k));
                assert(k.1 <= len - 1);
                assert(names.drop_first().skip(names.drop_first().len() - k.1) =~= names.skip(
                    names.len() - k.1,
                ));
            }
        }
    }
    Some(count)
}

/// The memory that the instances of a metapath take, as
/// `count_metapath_memory_usage` computes it, or `None` where that
/// computation would read a matrix or a row that does not exist, or its
/// result would not fit a `usize`.
pub fn count_metapath_memory_usage_checked(graph: &HeteroGraph, metapath: &Metapath) -> (usage:
    Option<usize>)
    ensures
        usage is Some <==> {
            &&& metapath.names().len() >= 2
            &&& graph.has_edge_type(metapath.names()[0], metapath.names()[1])
            &&& forall|i: int|
                0 <= i < step_rows(*graph, metapath.names()).len() ==> #[trigger] count_defined(
                    *graph,
                    metapath.names(),
                    i,
                )
            &&& 4 * walks_below(
                *graph,
                metapath.names(),
                step_rows(*graph, metapath.names()).len(),
            ) <= usize::MAX
        },
        usage matches Some(u) ==> u == 4 * walks_below(
            *graph,
            metapath.names(),
            step_rows(*graph, metapath.names()).len(),
        ),
{
    let ghost names = metapath.names();
    let path = metapath.path.as_slice();
    assert(names_of(path@) =~= names);
    if path.len() < 2 {
        return None;
    }
    let first_graph = match graph.get(&path[0], &path[1]) {
        Some(m) => m,
        None => {
            return None;
        },
    };
    let rows = first_graph.rows();
    let mut count_cache: BTreeMap<(usize, usize), usize> = BTreeMap::new();
    let mut count: usize = 0;
    for i in 0..rows
        invariant
            names_of(path@) == names,
            names == metapath.names(),
            names.len() >= 2,
            rows == step_rows(*graph, names).len(),
            forall|j: int| 0 <= j < i ==> #[trigger] count_defined(*graph, names, j),
            count == walks_below(*graph, names, i as nat),
            cache_sound(*graph, names, count_cache@),
    {
        proof {
            lemma_walks_below_mono(*graph, names, (i + 1) as nat, rows as nat);
        }
        assert(walks_below(*graph, names, (i + 1) as nat) == walks_below(*graph, names, i as nat)
            + walk_count(*graph, names, i as int));
        match count_partial_checked(graph, path, i, &mut count_cache) {
            Some(c) => {
                match count.checked_add(c) {
                    Some(t) => {
                        count = t;
                    },
                    None => {
                        assert(walks_below(*graph, names, rows as nat) > usize::MAX);
                        return None;
                    },
                }
            },
            None => {
                proof {
                    if count_defined(*graph, names, i as int) {
                        assert(walk_count(*graph, names, i as int) > usize::MAX);
                        assert(walks_below(*graph, names, rows as nat) > usize::MAX);
                    }
                }
                return None;
            },
        }
    }
    count.checked_mul(4)
}

proof fn lemma_walks_below_mono(g: HeteroGraph, names: Seq<Seq<char>>, i: nat, n: nat)
    requires
        i <= n,
    ensures
        walks_below(g, names, i) <= walks_below(g, names, n),
    decreases n,
{
    if i < n {
        lemma_walks_below_mono(g, names, i, (n - 1) as nat);
    }
}

} // verus!
