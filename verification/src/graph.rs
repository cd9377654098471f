//! Core data structures for the Grand Pattern cell graph.
use vstd::prelude::*;

verus! {

/// A room (node) in the cell graph.
///
/// `vibe` and `surprise` are `f64` values stored as their bit patterns
/// (`f64::to_bits`), which every format of this crate carries unchanged.
#[derive(Clone, Copy, Debug, PartialEq, Eq, Structural)]
pub struct Room {
    pub id: usize,
    pub vibe: u64,
    pub surprise: u64,
}

/// A weighted, directed edge between two rooms; `weight` is an `f64` bit pattern.
#[derive(Clone, Copy, Debug, PartialEq, Eq, Structural)]
pub struct Edge {
    pub from: usize,
    pub to: usize,
    pub weight: u64,
}

/// The cell graph: a collection of rooms with weighted edges.
#[derive(Debug)]
pub struct CellGraph {
    pub rooms: Vec<Room>,
    pub edges: Vec<Edge>,
}

/// The rooms of a graph carry their own position as id, as `add_room` makes them.
pub open spec fn sequential_ids(rooms: Seq<Room>) -> bool {
    forall|i: int| 0 <= i < rooms.len() ==> #[trigger] rooms[i].id == i
}

impl CellGraph {
    /// An empty graph.
    pub fn new() -> (g: Self)
        ensures
            g.rooms@ == Seq::<Room>::empty(),
            g.edges@ == Seq::<Edge>::empty(),
    {
        CellGraph { rooms: Vec::new(), edges: Vec::new() }
    }

    /// Appends a room whose id is its position, and returns that id.
    pub fn add_room(&mut self, vibe: u64, surprise: u64) -> (id: usize)
        ensures
            id == old(self).rooms@.len(),
            final(self).rooms@ == old(self).rooms@.push(Room { id, vibe, surprise }),
            final(self).edges@ == old(self).edges@,
    {
        let id = self.rooms.len();
        self.rooms.push(Room { id, vibe, surprise });
        id
    }

    /// Appends an edge; endpoints are not checked against the rooms.
    pub fn add_edge(&mut self, from: usize, to: usize, weight: u64)
        ensures
            final(self).edges@ == old(self).edges@.push(Edge { from, to, weight }),
            final(self).rooms@ == old(self).rooms@,
    {
        self.edges.push(Edge { from, to, weight });
    }
}

impl Default for CellGraph {
    fn default() -> (g: Self)
        ensures
            g.rooms@ == Seq::<Room>::empty(),
            g.edges@ == Seq::<Edge>::empty(),
    {
        Self::new()
    }
}

/// Every graph that `add_room` builds from an empty graph keeps its room ids
/// equal to their positions.
pub proof fn lemma_add_room_keeps_sequential_ids(rooms: Seq<Room>, vibe: u64, surprise: u64)
    requires
        sequential_ids(rooms),
        rooms.len() <= usize::MAX,
    ensures
        sequential_ids(rooms.push(Room { id: rooms.len() as usize, vibe, surprise })),
{
    let r2 = rooms.push(Room { id: rooms.len() as usize, vibe, surprise });
    assert forall|i: int| 0 <= i < r2.len() implies #[trigger] r2[i].id == i by {
        if i < rooms.len() {
            assert(r2[i] == rooms[i]);
        }
    }
}

} // verus!
