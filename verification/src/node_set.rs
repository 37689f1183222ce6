//! A set of quadtree node indices.
use vstd::prelude::*;

verus! {

/// A hash set of node indices, kept in `bevy::utils::HashSet<usize>`.
#[verifier::external_body]
pub struct NodeSet {
    inner: bevy::utils::HashSet<usize>,
}

/// The indices that the set holds.
pub uninterp spec fn node_set_indices(s: NodeSet) -> Set<usize>;

/// `HashSet::new`: the new set holds nothing.
#[verifier::external_body]
fn set_new() -> (s: NodeSet)
    ensures
        node_set_indices(s) == Set::<usize>::empty(),
{
    NodeSet { inner: bevy::utils::HashSet::new() }
}

/// `HashSet::insert`: afterwards the set holds `index` besides what it held,
/// and the result tells whether `index` was new to it.
#[verifier::external_body]
fn set_insert(s: &mut NodeSet, index: usize) -> (fresh: bool)
    ensures
        node_set_indices(*final(s)) == node_set_indices(*old(s)).insert(index),
        fresh == !node_set_indices(*old(s)).contains(index),
{
    s.inner.insert(index)
}

/// `HashSet::contains`: whether the set holds `index`.
#[verifier::external_body]
fn set_contains(s: &NodeSet, index: usize) -> (found: bool)
    ensures
        found == node_set_indices(*s).contains(index),
{
    s.inner.contains(&index)
}

/// `HashSet::iter`: every index of the set is handed out exactly once, in an
/// order that is left open.
#[verifier::external_body]
fn set_items(s: &NodeSet) -> (items: Vec<usize>)
    ensures
        items@.no_duplicates(),
        items@.to_set() == node_set_indices(*s),
{
    s.inner.iter().copied().collect()
}

impl NodeSet {
    /// The indices in the set.
    pub open spec fn view(&self) -> Set<usize> {
        node_set_indices(*self)
    }

    /// An empty set.
    pub fn new() -> (s: Self)
        ensures
            s@ == Set::<usize>::empty(),
    {
        set_new()
    }

    /// Adds `index` and tells whether it was new to the set.
    pub fn insert(&mut self, index: usize) -> (fresh: bool)
        ensures
            final(self)@ == old(self)@.insert(index),
            fresh == !old(self)@.contains(index),
    {
        set_insert(self, index)
    }

    /// Whether `index` is in the set.
    pub fn contains(&self, index: usize) -> (found: bool)
        ensures
            found == self@.contains(index),
    {
        set_contains(self, index)
    }

    /// The indices of the set, each once, in no particular order.
    pub fn to_vec(&self) -> (items: Vec<usize>)
        ensures
            items@.no_duplicates(),
            items@.to_set() == self@,
    {
        set_items(self)
    }

    /// How many indices the set holds.
    pub fn len(&self) -> (n: usize)
        ensures
            self@.finite(),
            n == self@.len(),
    {
        let items = set_items(self);
        proof {
            items@.unique_seq_to_set();
        }
        items.len()
    }
}

} // verus!
