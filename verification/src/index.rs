//! The spatial index: a k-d tree over the points of the catalog's tiles,
//! searched by Manhattan distance.
//!
//! The tree is that of the `kiddo` crate. What is said here of its making,
//! adding, searching and removing is taken from that crate as it stands and
//! is not proved; all that is built on it is.

use vstd::prelude::*;
use vstd::set_lib::lemma_len_subset;

verus! {

/// One answer of a nearest-neighbour query: a signed tile index and its
/// distance from the query point.
#[derive(Clone, Copy, Debug, PartialEq, Eq)]
pub struct NearestNeighbour {
    pub distance: u32,
    pub item: i16,
}

/// Signed tile indices, each with its point in colour space.
pub type Entries = Map<i16, Seq<u8>>;

/// The largest number of coordinates a point of the index may have.
pub const MAX_DIMENSION: usize = 49_152;

/// The number of entries one bucket of the tree holds.
pub const BUCKET_SIZE: usize = 640;

/// Half the number of entries one bucket of the tree holds.
pub const HALF_BUCKET: usize = 320;

/// The most entries the index takes over its lifetime.
pub const MAX_ENTRIES: usize = 32_767;

/// The most entries the tree is asked for at once.
pub const MAX_QUERY: usize = 100_000;

/// The distance between two coordinates.
pub open spec fn gap(a: u8, b: u8) -> nat {
    if a > b {
        (a - b) as nat
    } else {
        (b - a) as nat
    }
}

/// The Manhattan distance between two points: the sum, over the
/// coordinates, of the distances between them.
pub open spec fn manhattan(a: Seq<u8>, b: Seq<u8>) -> nat
    decreases a.len(),
{
    if a.len() == 0 || b.len() == 0 {
        0
    } else {
        manhattan(a.drop_last(), b.drop_last()) + gap(a.last(), b.last())
    }
}

/// The distance between two points is at most 255 for each coordinate.
pub proof fn lemma_manhattan_bound(a: Seq<u8>, b: Seq<u8>)
    ensures
        manhattan(a, b) <= 255 * a.len(),
    decreases a.len(),
{
    if a.len() != 0 && b.len() != 0 {
        lemma_manhattan_bound(a.drop_last(), b.drop_last());
    }
}

/// Two points of one length are at distance 0 exactly when they are equal.
pub proof fn lemma_manhattan_zero(a: Seq<u8>, b: Seq<u8>)
    requires
        a.len() == b.len(),
    ensures
        manhattan(a, b) == 0 <==> a == b,
    decreases a.len(),
{
    if a.len() == 0 {
        assert(a =~= b);
    } else {
        lemma_manhattan_zero(a.drop_last(), b.drop_last());
        if manhattan(a, b) == 0 {
            assert(a.drop_last() == b.drop_last());
            assert(a.last() == b.last());
            assert(a =~= a.drop_last().push(a.last()));
            assert(b =~= b.drop_last().push(b.last()));
        }
    }
}

/// The entries that have `value` as their coordinate on `axis`.
pub open spec fn crowd_set(entries: Entries, axis: int, value: u8) -> Set<i16> {
    Set::new(|item: i16| entries.dom().contains(item) && entries[item][axis] == value)
}

/// How many entries have `value` as their coordinate on `axis`.
pub open spec fn crowd(entries: Entries, axis: int, value: u8) -> nat {
    crowd_set(entries, axis, value).len()
}

/// Whether every entry has `a` or `b` as its coordinate on `axis`.
pub open spec fn is_two_valued(entries: Entries, axis: int, a: u8, b: u8) -> bool {
    forall|item: i16|
        entries.dom().contains(item) ==> (#[trigger] entries[item])[axis] == a || entries[item][axis]
            == b
}

/// Whether the tree can split its buckets along `axis` whatever they hold of
/// the entries: no more than half a bucketful of entries share a coordinate
/// on the axis, or the entries have no more than two different coordinates
/// there and less than a bucketful share one.
pub open spec fn axis_has_room(entries: Entries, axis: int) -> bool {
    ||| forall|value: u8| #[trigger] crowd(entries, axis, value) <= HALF_BUCKET
    ||| {
        &&& exists|a: u8, b: u8| is_two_valued(entries, axis, a, b)
        &&& forall|value: u8| #[trigger] crowd(entries, axis, value) < BUCKET_SIZE
    }
}

/// Whether the tree can take the entries and one more: it can split its
/// buckets along every axis.
pub open spec fn has_room(entries: Entries, dimension: nat) -> bool {
    forall|axis: int| 0 <= axis < dimension ==> #[trigger] axis_has_room(entries, axis)
}

/// A new entry adds one to the crowd at each of its coordinates and leaves
/// the other crowds as they were.
pub proof fn lemma_crowd_insert(entries: Entries, item: i16, point: Seq<u8>, axis: int, value: u8)
    requires
        entries.dom().finite(),
        !entries.dom().contains(item),
    ensures
        crowd(entries.insert(item, point), axis, value) == crowd(entries, axis, value) + (if point[axis]
            == value {
            1nat
        } else {
            0nat
        }),
{
    let grown = entries.insert(item, point);
    let before = crowd_set(entries, axis, value);
    let after = crowd_set(grown, axis, value);
    lemma_len_subset(before, entries.dom());
    if point[axis] == value {
        assert(after =~= before.insert(item));
    } else {
        assert(after =~= before);
    }
}

/// Entries that are all among others crowd no more than the others do.
pub proof fn lemma_crowd_grows(few: Entries, many: Entries, axis: int, value: u8)
    requires
        many.dom().finite(),
        forall|item: i16| #[trigger]
            few.dom().contains(item) ==> many.dom().contains(item) && many[item] == few[item],
    ensures
        crowd(few, axis, value) <= crowd(many, axis, value),
{
    lemma_len_subset(crowd_set(many, axis, value), many.dom());
    assert forall|item: i16| crowd_set(few, axis, value).contains(item) implies crowd_set(
        many,
        axis,
        value,
    ).contains(item) by {
        assert(many[item] == few[item]);
    }
    lemma_len_subset(crowd_set(few, axis, value), crowd_set(many, axis, value));
}

/// Where entries have room, a part of them has room.
pub proof fn lemma_room_for_part(few: Entries, many: Entries, dimension: nat)
    requires
        many.dom().finite(),
        forall|item: i16| #[trigger]
            few.dom().contains(item) ==> many.dom().contains(item) && many[item] == few[item],
        has_room(many, dimension),
    ensures
        has_room(few, dimension),
{
    assert forall|axis: int| 0 <= axis < dimension implies #[trigger] axis_has_room(few, axis) by {
        assert(axis_has_room(many, axis));
        assert forall|value: u8| #[trigger] crowd(few, axis, value) <= crowd(many, axis, value) by {
            lemma_crowd_grows(few, many, axis, value);
        }
        if forall|value: u8| #[trigger] crowd(many, axis, value) <= HALF_BUCKET {
            assert forall|value: u8| #[trigger] crowd(few, axis, value) <= HALF_BUCKET by {
                assert(crowd(few, axis, value) <= crowd(many, axis, value));
            }
        } else {
            let (a, b) = choose|a: u8, b: u8| is_two_valued(many, axis, a, b);
            assert(is_two_valued(few, axis, a, b)) by {
                assert forall|item: i16| few.dom().contains(item) implies (#[trigger] few[item])[axis]
                    == a || few[item][axis] == b by {
                    assert(many.dom().contains(item) && many[item] == few[item]);
                }
            }
            assert forall|value: u8| #[trigger] crowd(few, axis, value) < BUCKET_SIZE by {
                assert(crowd(few, axis, value) <= crowd(many, axis, value));
            }
        }
    }
}

/// A coordinate that entries crowd at is the coordinate of one of them, and
/// a coordinate of one of them is one that entries crowd at.
pub proof fn lemma_crowd_positive(entries: Entries, axis: int, value: u8)
    requires
        entries.dom().finite(),
    ensures
        crowd(entries, axis, value) > 0 <==> exists|item: i16|
            entries.dom().contains(item) && (#[trigger] entries[item])[axis] == value,
{
    let crowded = crowd_set(entries, axis, value);
    lemma_len_subset(crowded, entries.dom());
    if crowded.len() > 0 {
        let item = crowded.choose();
        assert(crowded.contains(item));
        assert(entries.dom().contains(item) && entries[item][axis] == value);
    }
    if exists|item: i16| entries.dom().contains(item) && (#[trigger] entries[item])[axis] == value {
        let item = choose|item: i16|
            entries.dom().contains(item) && (#[trigger] entries[item])[axis] == value;
        assert(crowded.contains(item));
        if crowded.len() == 0 {
            crowded.lemma_len0_is_empty();
        }
    }
}

/// No entries, no crowd.
pub proof fn lemma_crowd_empty(axis: int, value: u8)
    ensures
        crowd(Entries::empty(), axis, value) == 0,
{
    assert(crowd_set(Entries::empty(), axis, value) =~= Set::<i16>::empty());
}

/// Whether `found` is an entry at the least distance from `query`.
pub open spec fn is_nearest(entries: Entries, query: Seq<u8>, found: NearestNeighbour) -> bool {
    &&& entries.dom().contains(found.item)
    &&& found.distance == manhattan(entries[found.item], query)
    &&& forall|other: i16|
        entries.dom().contains(other) ==> found.distance <= manhattan(
            #[trigger] entries[other],
            query,
        )
}

/// Whether every one of `found` is an entry, told with its distance from
/// `query`, and none is told twice.
pub open spec fn are_entries(entries: Entries, query: Seq<u8>, found: Seq<NearestNeighbour>) -> bool {
    &&& forall|i: int|
        0 <= i < found.len() ==> entries.dom().contains((#[trigger] found[i]).item)
            && found[i].distance == manhattan(entries[found[i].item], query)
    &&& forall|i: int, j: int|
        0 <= i < j < found.len() ==> (#[trigger] found[i]).item != (#[trigger] found[j]).item
}

/// Whether `found` goes from near to far.
pub open spec fn is_ascending(found: Seq<NearestNeighbour>) -> bool {
    forall|i: int, j: int|
        0 <= i <= j < found.len() ==> (#[trigger] found[i]).distance <= (
        #[trigger] found[j]).distance
}

/// Whether `item` is one of `found`.
pub open spec fn names(found: Seq<NearestNeighbour>, item: i16) -> bool {
    exists|i: int| 0 <= i < found.len() && (#[trigger] found[i]).item == item
}

/// Whether no entry left out of `found` is nearer to `query` than one of
/// `found`.
pub open spec fn leaves_out_farther(
    entries: Entries,
    query: Seq<u8>,
    found: Seq<NearestNeighbour>,
) -> bool {
    forall|other: i16, i: int|
        entries.dom().contains(other) && !names(found, other) && 0 <= i < found.len() ==> (
        #[trigger] found[i]).distance <= manhattan(#[trigger] entries[other], query)
}

/// Whether `found` names every entry.
pub open spec fn names_all(entries: Entries, found: Seq<NearestNeighbour>) -> bool {
    forall|other: i16| #[trigger] entries.dom().contains(other) ==> names(found, other)
}

/// A coordinate as the tree holds it: a whole number in 32 bits.
type Coordinate = fixed::FixedU32<typenum::U0>;

/// The tree over points of `K` coordinates.
type Tree<const K: usize> = kiddo::fixed::kdtree::KdTree<Coordinate, i16, K, 640, u16>;

/// A `kiddo::fixed::kdtree::KdTree` of `i16` items at points of 32-bit
/// fixed-point coordinates without fraction bits, with buckets of 640 and
/// 16-bit node indices, of whatever dimension it was made with.
#[verifier::external_body]
pub struct KdIndex {
    tree: Box<dyn core::any::Any + Send + Sync>,
}

/// What a tree holds: each item with the point it was added at.
pub uninterp spec fn index_entries(index: KdIndex) -> Entries;

/// The number of coordinates of the points a tree was made for.
pub uninterp spec fn index_dimension(index: KdIndex) -> nat;

/// How many entries a tree has taken since it was made, those removed since
/// included.
pub uninterp spec fn index_added(index: KdIndex) -> nat;

/// `KdTree::new`: an empty tree for points of `K` coordinates.
#[verifier::external_body]
fn tree_new<const K: usize>() -> (made: KdIndex)
    requires
        K > 0,
    ensures
        index_entries(made) == Entries::empty(),
        index_dimension(made) == K,
        index_added(made) == 0,
{
    KdIndex { tree: Box::new(Tree::<K>::new()) }
}

/// `KdTree::add`: the tree takes `item` at `point`. The tree counts its
/// entries in an `i16` and its nodes in a `u16`. It cannot split a full
/// bucket whose entries all share the coordinate it splits on, and where more
/// than half of them share the least such coordinate it keeps the entries in
/// order only if they have no more than two different coordinates there. The
/// conditions keep clear of all of these.
#[verifier::external_body]
fn tree_add<const K: usize>(index: &mut KdIndex, point: &Vec<u8>, item: i16)
    requires
        index_dimension(*old(index)) == K,
        point@.len() == K,
        index_entries(*old(index)).dom().finite(),
        !index_entries(*old(index)).dom().contains(item),
        index_added(*old(index)) < MAX_ENTRIES,
        index_entries(*old(index)).dom().len() < MAX_ENTRIES,
        has_room(index_entries(*old(index)), K as nat),
    ensures
        index_entries(*final(index)) == index_entries(*old(index)).insert(item, point@),
        index_dimension(*final(index)) == K,
        index_added(*final(index)) == index_added(*old(index)) + 1,
    no_unwind
{
    let at: [Coordinate; K] = core::array::from_fn(|i| Coordinate::from_bits(point[i].into()));
    index.tree.downcast_mut::<Tree<K>>().unwrap().add(&at, item);
}

/// `KdTree::nearest_one` with `kiddo::fixed::distance::Manhattan`: an entry
/// at the least distance from `query`, with that distance. An empty tree
/// answers with item 0 at the greatest distance there is.
#[verifier::external_body]
fn tree_nearest_one<const K: usize>(index: &KdIndex, query: &Vec<u8>) -> (found: NearestNeighbour)
    requires
        index_dimension(*index) == K,
        query@.len() == K,
        K <= MAX_DIMENSION,
    ensures
        index_entries(*index).dom().is_empty() ==> found.item == 0 && found.distance == u32::MAX,
        !index_entries(*index).dom().is_empty() ==> is_nearest(
            index_entries(*index),
            query@,
            found,
        ),
{
    let at: [Coordinate; K] = core::array::from_fn(|i| Coordinate::from_bits(query[i].into()));
    let found = index.tree.downcast_ref::<Tree<K>>().unwrap().nearest_one::<
        kiddo::fixed::distance::Manhattan,
    >(&at);
    NearestNeighbour { distance: found.distance.to_bits(), item: found.item }
}

/// `KdTree::nearest_n` with `kiddo::fixed::distance::Manhattan`: the nearest
/// entries to `query`, each once and with its distance, from near to far. No
/// entry left out is nearer than one that is told, and unless every entry is
/// told, at least `qty` are. The tree makes room for `qty` answers before it
/// looks for them, so `qty` is kept within bounds.
#[verifier::external_body]
fn tree_nearest_n<const K: usize>(index: &KdIndex, query: &Vec<u8>, qty: usize) -> (found: Vec<
    NearestNeighbour,
>)
    requires
        index_dimension(*index) == K,
        query@.len() == K,
        K <= MAX_DIMENSION,
        0 < qty <= MAX_QUERY,
        index_entries(*index).dom().finite(),
    ensures
        are_entries(index_entries(*index), query@, found@),
        is_ascending(found@),
        leaves_out_farther(index_entries(*index), query@, found@),
        found@.len() <= index_entries(*index).dom().len(),
        found@.len() >= qty || names_all(index_entries(*index), found@),
{
    let at: [Coordinate; K] = core::array::from_fn(|i| Coordinate::from_bits(query[i].into()));
    let found = index.tree.downcast_ref::<Tree<K>>().unwrap().nearest_n::<
        kiddo::fixed::distance::Manhattan,
    >(&at, qty);
    found.into_iter().map(|n| NearestNeighbour { distance: n.distance.to_bits(), item: n.item }).collect()
}

/// `KdTree::remove`: the entry `item` leaves the tree if it stands at
/// `point`; the result counts the entries removed.
#[verifier::external_body]
fn tree_remove<const K: usize>(index: &mut KdIndex, point: &Vec<u8>, item: i16) -> (removed: usize)
    requires
        index_dimension(*old(index)) == K,
        point@.len() == K,
    ensures
        removed == (if index_entries(*old(index)).dom().contains(item) && index_entries(
            *old(index),
        )[item] == point@ {
            1usize
        } else {
            0usize
        }),
        index_entries(*final(index)) == (if removed == 1 {
            index_entries(*old(index)).remove(item)
        } else {
            index_entries(*old(index))
        }),
        index_dimension(*final(index)) == K,
        index_added(*final(index)) == index_added(*old(index)),
    no_unwind
{
    let at: [Coordinate; K] = core::array::from_fn(|i| Coordinate::from_bits(point[i].into()));
    index.tree.downcast_mut::<Tree<K>>().unwrap().remove(&at, item)
}

/// The spatial index over points of `K` coordinates. Its view is the map
/// from the signed tile indices it holds to their points.
pub struct SpatialIndex<const K: usize> {
    tree: KdIndex,
}

impl<const K: usize> View for SpatialIndex<K> {
    type V = Entries;

    closed spec fn view(&self) -> Entries {
        index_entries(self.tree)
    }
}

impl<const K: usize> SpatialIndex<K> {
    #[verifier::type_invariant]
    spec fn well_formed(&self) -> bool {
        &&& 0 < K <= MAX_DIMENSION
        &&& index_dimension(self.tree) == K
        &&& index_entries(self.tree).dom().finite()
        &&& index_entries(self.tree).dom().len() <= index_added(self.tree) <= MAX_ENTRIES
        &&& forall|item: i16|
            index_entries(self.tree).dom().contains(item) ==> (#[trigger] index_entries(
                self.tree,
            )[item]).len() == K
    }

    /// How many entries the index has taken since it was made.
    pub closed spec fn added(&self) -> nat {
        index_added(self.tree)
    }

    /// Whether the index can take one more entry.
    pub open spec fn can_add(&self) -> bool {
        self.added() < MAX_ENTRIES && has_room(self@, K as nat)
    }

    /// An empty index, or `None` where `K` is 0 or above `MAX_DIMENSION`.
    pub fn new() -> (made: Option<SpatialIndex<K>>)
        ensures
            made is Some <==> 0 < K <= MAX_DIMENSION,
            made is Some ==> made->0@ == Entries::empty() && made->0.added() == 0,
    {
        if K == 0 || K > MAX_DIMENSION {
            return None;
        }
        let tree = tree_new::<K>();
        Some(SpatialIndex { tree })
    }

    /// What holds of every index: it has finitely many entries, no more than
    /// it has taken, and each stands at a point of `K` coordinates.
    pub fn check(&self)
        ensures
            0 < K <= MAX_DIMENSION,
            self@.dom().finite(),
            self@.dom().len() <= self.added() <= MAX_ENTRIES,
            forall|item: i16| self@.dom().contains(item) ==> (#[trigger] self@[item]).len() == K,
    {
        proof {
            use_type_invariant(self);
        }
    }

    /// Adds `item` at `point`.
    pub fn add(&mut self, point: &Vec<u8>, item: i16)
        requires
            point@.len() == K,
            !old(self)@.dom().contains(item),
            old(self).can_add(),
        ensures
            final(self)@ == old(self)@.insert(item, point@),
            final(self).added() == old(self).added() + 1,
    {
        proof {
            use_type_invariant(&*self);
        }
        tree_add::<K>(&mut self.tree, point, item);
    }

    /// An entry at the least Manhattan distance from `query`, with that
    /// distance. An empty index answers with item 0 at distance `u32::MAX`.
    pub fn nearest_one(&self, query: &Vec<u8>) -> (found: NearestNeighbour)
        requires
            query@.len() == K,
        ensures
            self@.dom().is_empty() ==> found.item == 0 && found.distance == u32::MAX,
            !self@.dom().is_empty() ==> is_nearest(self@, query@, found),
    {
        proof {
            use_type_invariant(self);
        }
        tree_nearest_one::<K>(&self.tree, query)
    }

    /// The nearest entries to `query` by Manhattan distance, each once and
    /// with its distance, from near to far: at least `qty` of them, or all
    /// there are, and none that is farther than an entry left out.
    pub fn nearest_n(&self, query: &Vec<u8>, qty: usize) -> (found: Vec<NearestNeighbour>)
        requires
            query@.len() == K,
        ensures
            are_entries(self@, query@, found@),
            is_ascending(found@),
            leaves_out_farther(self@, query@, found@),
            found@.len() <= self@.dom().len(),
            found@.len() >= qty || names_all(self@, found@),
    {
        proof {
            use_type_invariant(self);
        }
        if qty == 0 {
            return Vec::new();
        }
        let most = if qty > MAX_QUERY {
            MAX_QUERY
        } else {
            qty
        };
        tree_nearest_n::<K>(&self.tree, query, most)
    }

    /// Removes the entry `item` if it stands at `point`, and says how many
    /// entries it removed: 1, or 0 where there is no such entry.
    pub fn remove(&mut self, point: &Vec<u8>, item: i16) -> (removed: usize)
        requires
            point@.len() == K,
        ensures
            removed == (if old(self)@.dom().contains(item) && old(self)@[item] == point@ {
                1usize
            } else {
                0usize
            }),
            final(self)@ == (if removed == 1 {
                old(self)@.remove(item)
            } else {
                old(self)@
            }),
            final(self).added() == old(self).added(),
    {
        proof {
            use_type_invariant(&*self);
        }
        let removed = tree_remove::<K>(&mut self.tree, point, item);
        removed
    }
}

} // verus!
