//! A point of the index as seen from a query: its identifier and how far away
//! it lies.

use std::cmp::Ordering;
use vstd::prelude::*;

verus! {

/// An identifier together with a distance. It is the unit of graph edges and
/// of search results.
#[derive(Clone, Copy, Debug, PartialEq, Eq, Structural)]
pub struct Neighbor {
    /// The identifier of the point.
    pub index: usize,
    /// The distance from the query, or from the owner of the edge, to the point.
    pub distance: u64,
}

/// What a ranked set orders: a distance, the arrival number that breaks ties
/// between equal distances, and the identifier the entry stands for.
pub type Key = (u64, usize, usize);

/// Whether key `a` comes strictly before key `b`: by distance, then by
/// arrival, then by identifier.
pub open spec fn key_lt(a: Key, b: Key) -> bool {
    a.0 < b.0 || (a.0 == b.0 && (a.1 < b.1 || (a.1 == b.1 && a.2 < b.2)))
}

/// The neighbour a key stands for.
pub open spec fn key_neighbor(k: Key) -> Neighbor {
    Neighbor { index: k.2, distance: k.0 }
}

impl Neighbor {
    /// The key under which this neighbour is ranked when it arrives as number
    /// `arrival`.
    pub open spec fn key(self, arrival: usize) -> Key {
        (self.distance, arrival, self.index)
    }

    /// How two neighbours compare: by distance alone, whatever their
    /// identifiers.
    pub open spec fn distance_order(self, other: Neighbor) -> Ordering {
        if self.distance < other.distance {
            Ordering::Less
        } else if self.distance == other.distance {
            Ordering::Equal
        } else {
            Ordering::Greater
        }
    }

    /// Compares two neighbours by distance alone.
    pub fn compare_distance(&self, other: &Neighbor) -> (o: Ordering)
        ensures
            o == self.distance_order(*other),
    {
        if self.distance < other.distance {
            Ordering::Less
        } else if self.distance == other.distance {
            Ordering::Equal
        } else {
            Ordering::Greater
        }
    }

    /// Whether this neighbour is strictly closer than `other`.
    pub fn closer_than(&self, other: &Neighbor) -> (b: bool)
        ensures
            b == (self.distance_order(*other) == Ordering::Less),
            b == (self.distance < other.distance),
    {
        self.distance < other.distance
    }
}

/// A neighbour at a smaller distance is ordered first, whatever the two
/// identifiers are, and the reverse comparison agrees.
pub proof fn lemma_closer_first(a: Neighbor, b: Neighbor)
    requires
        a.distance < b.distance,
    ensures
        a.distance_order(b) == Ordering::Less,
        b.distance_order(a) == Ordering::Greater,
{
}

/// Neighbours at the same distance compare equal, whatever the two
/// identifiers are, and only those do.
pub proof fn lemma_equal_distance(a: Neighbor, b: Neighbor)
    ensures
        (a.distance_order(b) == Ordering::Equal) <==> a.distance == b.distance,
{
}

/// The key order refines the order of neighbours: a key at a smaller distance
/// comes first whatever the arrival numbers and identifiers are, and a key
/// that comes first is never at a larger distance.
pub proof fn lemma_keys_refine(a: Neighbor, i: usize, b: Neighbor, j: usize)
    ensures
        a.distance_order(b) == Ordering::Less ==> key_lt(a.key(i), b.key(j)),
        key_lt(a.key(i), b.key(j)) ==> a.distance_order(b) != Ordering::Greater,
        a.distance_order(b) == Ordering::Equal && i < j ==> key_lt(a.key(i), b.key(j)),
{
}

} // verus!
