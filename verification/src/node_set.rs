//! Hash sets of typed nodes and hash maps of per-layer node features, both
//! held in `hashbrown` collections.
use vstd::prelude::*;
use hashbrown::{HashMap, HashSet};

verus! {

/// A typed node as a plain pair: the code of its layer and its id in that layer.
pub type NodeKey = (u32, u32);

/// A set of typed nodes.
#[verifier::external_body]
pub struct NodeSet {
    inner: HashSet<NodeKey>,
}

/// The nodes that a `NodeSet` holds.
pub uninterp spec fn node_set_items(s: NodeSet) -> Set<NodeKey>;

/// Wraps `hashbrown::HashSet::new`: an empty set.
#[verifier::external_body]
fn node_set_new() -> (s: NodeSet)
    ensures
        node_set_items(s) == Set::<NodeKey>::empty(),
        node_set_items(s).finite(),
{
    NodeSet { inner: HashSet::new() }
}

/// Wraps `hashbrown::HashSet::insert`: the item is added, and the result
/// tells whether it was absent before.
#[verifier::external_body]
fn node_set_insert(s: &mut NodeSet, x: NodeKey) -> (added: bool)
    ensures
        node_set_items(*final(s)) == node_set_items(*old(s)).insert(x),
        node_set_items(*final(s)).finite(),
        added == !node_set_items(*old(s)).contains(x),
{
    s.inner.insert(x)
}

/// Wraps `hashbrown::HashSet::contains`.
#[verifier::external_body]
fn node_set_contains(s: &NodeSet, x: NodeKey) -> (r: bool)
    ensures
        r == node_set_items(*s).contains(x),
{
    s.inner.contains(&x)
}

/// Wraps `hashbrown::HashSet::len`: the number of items.
#[verifier::external_body]
fn node_set_len(s: &NodeSet) -> (r: usize)
    ensures
        r == node_set_items(*s).len(),
{
    s.inner.len()
}

/// Wraps `<hashbrown::HashSet as Clone>::clone`: a set with the same items.
#[verifier::external_body]
fn node_set_clone(s: &NodeSet) -> (r: NodeSet)
    ensures
        node_set_items(r) == node_set_items(*s),
        node_set_items(r).finite(),
{
    NodeSet { inner: s.inner.clone() }
}

/// Wraps `<hashbrown::HashSet as Extend<&T>>::extend` with the items of
/// another set: afterwards the set holds the union of both.
#[verifier::external_body]
fn node_set_extend(s: &mut NodeSet, other: &NodeSet)
    ensures
        node_set_items(*final(s)) == node_set_items(*old(s)).union(node_set_items(*other)),
        node_set_items(*final(s)).finite(),
{
    s.inner.extend(other.inner.iter())
}

/// Wraps `hashbrown::HashSet::iter`, collected into a vector: each item once,
/// in the set's iteration order, which this contract leaves open.
#[verifier::external_body]
fn node_set_to_vec(s: &NodeSet) -> (r: Vec<NodeKey>)
    ensures
        r@.no_duplicates(),
        r@.to_set() == node_set_items(*s),
{
    s.inner.iter().copied().collect()
}

impl View for NodeSet {
    type V = Set<NodeKey>;

    open spec fn view(&self) -> Set<NodeKey> {
        node_set_items(*self)
    }
}

impl NodeSet {
    /// An empty set.
    pub fn new() -> (s: NodeSet)
        ensures
            s@ == Set::<NodeKey>::empty(),
            s@.finite(),
    {
        node_set_new()
    }

    /// Adds a node; `true` when it was not in the set before.
    pub fn insert(&mut self, x: NodeKey) -> (added: bool)
        ensures
            final(self)@ == old(self)@.insert(x),
            final(self)@.finite(),
            added == !old(self)@.contains(x),
    {
        node_set_insert(self, x)
    }

    /// Whether the set holds a node.
    pub fn contains(&self, x: NodeKey) -> (r: bool)
        ensures
            r == self@.contains(x),
    {
        node_set_contains(self, x)
    }

    /// The number of nodes in the set.
    pub fn len(&self) -> (r: usize)
        ensures
            r == self@.len(),
    {
        node_set_len(self)
    }

    /// A copy of the set.
    pub fn duplicate(&self) -> (r: NodeSet)
        ensures
            r@ == self@,
            r@.finite(),
    {
        node_set_clone(self)
    }

    /// Adds every node of another set.
    pub fn extend_with(&mut self, other: &NodeSet)
        ensures
            final(self)@ == old(self)@.union(other@),
            final(self)@.finite(),
    {
        node_set_extend(self, other)
    }

    /// Whether both sets hold the same nodes.
    pub fn same_as(&self, other: &NodeSet) -> (r: bool)
        ensures
            r == (self@ == other@),
    {
        let mine = self.to_vec();
        let n = mine.len();
        for i in 0..n
            invariant
                n == mine@.len(),
                mine@.to_set() == self@,
                forall|k: int| 0 <= k < i ==> other@.contains(#[trigger] mine@[k]),
        {
            if !other.contains(mine[i]) {
                proof {
                    assert(mine@.contains(mine@[i as int]));
                    assert(self@.contains(mine@[i as int]));
                }
                return false;
            }
        }
        let theirs = other.to_vec();
        let m = theirs.len();
        for i in 0..m
            invariant
                m == theirs@.len(),
                theirs@.to_set() == other@,
                forall|k: int| 0 <= k < i ==> self@.contains(#[trigger] theirs@[k]),
        {
            if !self.contains(theirs[i]) {
                proof {
                    assert(theirs@.contains(theirs@[i as int]));
                    assert(other@.contains(theirs@[i as int]));
                }
                return false;
            }
        }
        proof {
            assert forall|x: NodeKey| self@.contains(x) <==> other@.contains(x) by {
                if self@.contains(x) {
                    assert(mine@.to_set().contains(x));
                    let k = choose|k: int| 0 <= k < mine@.len() && mine@[k] == x;
                }
                if other@.contains(x) {
                    assert(theirs@.to_set().contains(x));
                    let k = choose|k: int| 0 <= k < theirs@.len() && theirs@[k] == x;
                }
            }
            assert(self@ =~= other@);
        }
        true
    }

    /// The nodes of the set, each once, in no order that is promised.
    pub fn to_vec(&self) -> (r: Vec<NodeKey>)
        ensures
            r@.no_duplicates(),
            r@.to_set() == self@,
    {
        node_set_to_vec(self)
    }
}

/// Per-layer node features: for a layer code, the feature of each node id.
#[verifier::external_body]
pub struct FeatureMap {
    inner: HashMap<u32, Vec<u64>>,
}

/// The entries of a `FeatureMap`.
pub uninterp spec fn feature_entries(m: FeatureMap) -> Map<u32, Seq<u64>>;

/// Wraps `hashbrown::HashMap::new`: an empty map.
#[verifier::external_body]
fn feature_map_new() -> (r: FeatureMap)
    ensures
        feature_entries(r).dom() == Set::<u32>::empty(),
{
    FeatureMap { inner: HashMap::new() }
}

/// Wraps `hashbrown::HashMap::insert`: the key now maps to the given
/// features, replacing what it mapped to before.
#[verifier::external_body]
fn feature_map_insert(m: &mut FeatureMap, layer: u32, features: Vec<u64>)
    ensures
        feature_entries(*final(m)) == feature_entries(*old(m)).insert(layer, features@),
{
    m.inner.insert(layer, features);
}

/// Wraps `hashbrown::HashMap::get`: the features of a layer, if any.
#[verifier::external_body]
fn feature_map_get(m: &FeatureMap, layer: u32) -> (r: Option<&Vec<u64>>)
    ensures
        match r {
            Some(v) => feature_entries(*m).contains_key(layer) && v@ == feature_entries(*m)[layer],
            None => !feature_entries(*m).contains_key(layer),
        },
{
    m.inner.get(&layer)
}

impl View for FeatureMap {
    type V = Map<u32, Seq<u64>>;

    open spec fn view(&self) -> Map<u32, Seq<u64>> {
        feature_entries(*self)
    }
}

impl FeatureMap {
    /// An empty map.
    pub fn new() -> (m: FeatureMap)
        ensures
            m@ == Map::<u32, Seq<u64>>::empty(),
    {
        feature_map_new()
    }

    /// Sets the features of a layer.
    pub fn insert(&mut self, layer: u32, features: Vec<u64>)
        ensures
            final(self)@ == old(self)@.insert(layer, features@),
    {
        feature_map_insert(self, layer, features)
    }

    /// The features of a layer, if it has any.
    pub fn get(&self, layer: u32) -> (r: Option<&Vec<u64>>)
        ensures
            match r {
                Some(v) => self@.contains_key(layer) && v@ == self@[layer],
                None => !self@.contains_key(layer),
            },
    {
        feature_map_get(self, layer)
    }
}

} // verus!
