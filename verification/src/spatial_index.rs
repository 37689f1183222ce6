//! The bucket index of a collision query: for each quadtree node, the
//! entities filed under it.
use vstd::prelude::*;
use crate::rect2d::Rect2D;

verus! {

/// What a bucket holds of an entity: its id and the rectangle it covers.
pub type Entry = (u64, Rect2D);

/// A hash map from node indices to buckets, kept in
/// `bevy::utils::HashMap<usize, Vec<(u64, Rect2D)>>`. It lives for one query.
#[verifier::external_body]
pub struct SpatialIndex {
    inner: bevy::utils::HashMap<usize, Vec<(u64, Rect2D)>>,
}

/// The buckets that the index holds, by node.
pub uninterp spec fn spatial_index_buckets(s: SpatialIndex) -> Map<usize, Seq<(u64, Rect2D)>>;

/// `HashMap::new`: the new map holds nothing.
#[verifier::external_body]
fn index_new() -> (s: SpatialIndex)
    ensures
        spatial_index_buckets(s).dom() == Set::<usize>::empty(),
{
    SpatialIndex { inner: bevy::utils::HashMap::new() }
}

/// `HashMap::get`: the bucket filed under `node`, if there is one.
#[verifier::external_body]
fn index_get(s: &SpatialIndex, node: usize) -> (found: Option<&Vec<(u64, Rect2D)>>)
    ensures
        found is Some <==> spatial_index_buckets(*s).contains_key(node),
        found is Some ==> found->0@ == spatial_index_buckets(*s)[node],
{
    s.inner.get(&node)
}

/// `HashMap::get_mut`: the bucket filed under `node`, if there is one, open
/// to changes; whatever the caller leaves in it is what the map holds under
/// `node` afterwards, and nothing else in the map changes.
#[verifier::external_body]
fn index_get_mut(s: &mut SpatialIndex, node: usize) -> (found: Option<&mut Vec<(u64, Rect2D)>>)
    ensures
        found is Some <==> spatial_index_buckets(*old(s)).contains_key(node),
        found is Some ==> found->0@ == spatial_index_buckets(*old(s))[node],
        found is Some ==> spatial_index_buckets(*final(s)) == spatial_index_buckets(*old(s)).insert(
            node,
            final(found->0)@,
        ),
        found is None ==> spatial_index_buckets(*final(s)) == spatial_index_buckets(*old(s)),
{
    s.inner.get_mut(&node)
}

/// `HashMap::insert`: afterwards the map holds `bucket` under `node`, and
/// under every other node what it held before.
#[verifier::external_body]
fn index_insert(s: &mut SpatialIndex, node: usize, bucket: Vec<(u64, Rect2D)>)
    ensures
        spatial_index_buckets(*final(s)) == spatial_index_buckets(*old(s)).insert(node, bucket@),
{
    s.inner.insert(node, bucket);
}

/// The bucket that `buckets` holds under `node`; empty where it holds none.
pub open spec fn bucket_or_empty(buckets: Map<usize, Seq<Entry>>, node: usize) -> Seq<Entry> {
    if buckets.contains_key(node) {
        buckets[node]
    } else {
        Seq::empty()
    }
}

impl SpatialIndex {
    /// The buckets by node.
    pub open spec fn view(&self) -> Map<usize, Seq<Entry>> {
        spatial_index_buckets(*self)
    }

    /// An index without buckets.
    pub fn new() -> (s: Self)
        ensures
            forall|node: usize| bucket_or_empty(s@, node) == Seq::<Entry>::empty(),
    {
        index_new()
    }

    /// Appends `entry` to the bucket of `node`, starting that bucket if
    /// there is none yet.
    pub fn file(&mut self, node: usize, entry: Entry)
        ensures
            bucket_or_empty(final(self)@, node) == bucket_or_empty(old(self)@, node).push(entry),
            forall|other: usize|
                other != node ==> bucket_or_empty(final(self)@, other) == bucket_or_empty(
                    old(self)@,
                    other,
                ),
    {
        match index_get_mut(self, node) {
            Some(contents) => {
                contents.push(entry);
            },
            None => {
                let mut contents: Vec<Entry> = Vec::new();
                contents.push(entry);
                index_insert(self, node, contents);
                assert(Seq::<Entry>::empty().push(entry) =~= self@[node]);
            },
        }
    }

    /// The bucket of `node`, if anything was filed under it.
    pub fn bucket(&self, node: usize) -> (found: Option<&Vec<Entry>>)
        ensures
            found is Some ==> found->0@ == bucket_or_empty(self@, node),
            found is None ==> bucket_or_empty(self@, node) == Seq::<Entry>::empty(),
    {
        index_get(self, node)
    }
}

} // verus!
