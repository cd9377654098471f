//! Snapshots of the cell graph together with per-room JEPA state.
use vstd::prelude::*;

pub mod format;
pub mod roundtrip;

pub use crate::persistence::json::find_array_end;
pub use format::{
    find_obj_end, get_json_num_text, parse_room_snapshot, parse_snapshot, render_snapshot_json,
    ParsedEdgeText, ParsedRoomText, ParsedSnapshotText, ReadingText, RoomSnapshotText, SnapshotError,
    SnapshotText,
};

use crate::graph::{sequential_ids, CellGraph, Edge, Room};

verus! {

/// A room as captured in a snapshot. `vibe`, `surprise`, the reading pairs
/// `(timestamp, value)` and the weights are `f64` bit patterns.
#[derive(Debug, Clone)]
pub struct RoomSnapshot {
    pub id: usize,
    pub vibe: u64,
    pub surprise: u64,
    pub jepa_readings: Vec<(u64, u64)>,
    pub jepa_weights: Vec<u64>,
}

/// A graph captured at a tick; edges are `(from, to, weight bits)`.
#[derive(Debug, Clone)]
pub struct Snapshot {
    pub tick: u64,
    pub rooms: Vec<RoomSnapshot>,
    pub edges: Vec<(usize, usize, u64)>,
}

/// The JEPA entry that room `i` takes from a per-room list: its own entry, or
/// an empty list when the list is shorter.
pub open spec fn entry_or_empty<T>(lists: Seq<Vec<T>>, i: int) -> Seq<T> {
    if 0 <= i < lists.len() {
        lists[i]@
    } else {
        Seq::empty()
    }
}

/// `s` captures, at `tick`, a graph with these rooms and edges and the JEPA
/// state of its rooms.
pub open spec fn captures(
    s: Snapshot,
    tick: u64,
    rooms: Seq<Room>,
    edges: Seq<Edge>,
    readings: Seq<Vec<(u64, u64)>>,
    weights: Seq<Vec<u64>>,
) -> bool {
    &&& s.tick == tick
    &&& s.rooms@.len() == rooms.len()
    &&& forall|i: int|
        0 <= i < rooms.len() ==> {
            &&& #[trigger] s.rooms@[i].id == rooms[i].id
            &&& s.rooms@[i].vibe == rooms[i].vibe
            &&& s.rooms@[i].surprise == rooms[i].surprise
            &&& s.rooms@[i].jepa_readings@ == entry_or_empty(readings, i)
            &&& s.rooms@[i].jepa_weights@ == entry_or_empty(weights, i)
        }
    &&& s.edges@ == edges.map_values(|e: Edge| (e.from, e.to, e.weight))
}

/// The rooms a graph restored from these room snapshots has: numbered by position.
pub open spec fn restored_rooms(rooms: Seq<RoomSnapshot>) -> Seq<Room> {
    Seq::new(rooms.len(), |i: int| Room { id: i as usize, vibe: rooms[i].vibe, surprise: rooms[i].surprise })
}

/// The edges a graph restored from these edge triples has.
pub open spec fn restored_edges(edges: Seq<(usize, usize, u64)>) -> Seq<Edge> {
    edges.map_values(|t: (usize, usize, u64)| Edge { from: t.0, to: t.1, weight: t.2 })
}

fn copy_vec<T: Copy>(v: &Vec<T>) -> (r: Vec<T>)
    ensures
        r@ == v@,
{
    let mut r: Vec<T> = Vec::new();
    let mut k: usize = 0;
    while k < v.len()
        invariant
            k <= v@.len(),
            r@ == v@.take(k as int),
        decreases v@.len() - k,
    {
        r.push(v[k]);
        k = k + 1;
        assert(r@ =~= v@.take(k as int));
    }
    assert(v@.take(k as int) =~= v@);
    r
}

impl Snapshot {
    /// Captures `graph` at `tick`; room `i` takes the `i`-th readings and
    /// weights, or empty lists where those lists are shorter.
    pub fn from_graph(
        tick: u64,
        graph: &CellGraph,
        jepa_readings: &[Vec<(u64, u64)>],
        jepa_weights: &[Vec<u64>],
    ) -> (s: Self)
        ensures
            captures(s, tick, graph.rooms@, graph.edges@, jepa_readings@, jepa_weights@),
    {
        let mut rooms: Vec<RoomSnapshot> = Vec::new();
        let mut i: usize = 0;
        while i < graph.rooms.len()
            invariant
                i <= graph.rooms@.len(),
                rooms@.len() == i,
                forall|k: int|
                    0 <= k < i ==> {
                        &&& #[trigger] rooms@[k].id == graph.rooms@[k].id
                        &&& rooms@[k].vibe == graph.rooms@[k].vibe
                        &&& rooms@[k].surprise == graph.rooms@[k].surprise
                        &&& rooms@[k].jepa_readings@ == entry_or_empty(jepa_readings@, k)
                        &&& rooms@[k].jepa_weights@ == entry_or_empty(jepa_weights@, k)
                    },
            decreases graph.rooms@.len() - i,
        {
            let room = graph.rooms[i];
            let readings = if i < jepa_readings.len() {
                copy_vec(&jepa_readings[i])
            } else {
                Vec::new()
            };
            let weights = if i < jepa_weights.len() {
                copy_vec(&jepa_weights[i])
            } else {
                Vec::new()
            };
            let ghost prev = rooms@;
            assert(readings@ == entry_or_empty(jepa_readings@, i as int));
            assert(weights@ == entry_or_empty(jepa_weights@, i as int));
            rooms.push(
                RoomSnapshot {
                    id: room.id,
                    vibe: room.vibe,
                    surprise: room.surprise,
                    jepa_readings: readings,
                    jepa_weights: weights,
                },
            );
            assert(forall|k: int| 0 <= k < i ==> rooms@[k] == prev[k]);
            i = i + 1;
        }
        let mut edges: Vec<(usize, usize, u64)> = Vec::new();
        let mut j: usize = 0;
        while j < graph.edges.len()
            invariant
                j <= graph.edges@.len(),
                edges@ == graph.edges@.take(j as int).map_values(|e: Edge| (e.from, e.to, e.weight)),
            decreases graph.edges@.len() - j,
        {
            let e = graph.edges[j];
            edges.push((e.from, e.to, e.weight));
            j = j + 1;
            assert(edges@ =~= graph.edges@.take(j as int).map_values(|e: Edge| (e.from, e.to, e.weight)));
        }
        assert(graph.edges@.take(j as int) =~= graph.edges@);
        Snapshot { tick, rooms, edges }
    }

    /// Rebuilds the graph: rooms are added in order, so each gets its
    /// position as id, and edges are added in order.
    pub fn to_graph(&self) -> (g: CellGraph)
        ensures
            g.rooms@ == restored_rooms(self.rooms@),
            g.edges@ == restored_edges(self.edges@),
            sequential_ids(g.rooms@),
    {
        let mut graph = CellGraph::new();
        let mut i: usize = 0;
        while i < self.rooms.len()
            invariant
                i <= self.rooms@.len(),
                graph.rooms@ =~= restored_rooms(self.rooms@).take(i as int),
                graph.edges@ == Seq::<Edge>::empty(),
            decreases self.rooms@.len() - i,
        {
            let _id = graph.add_room(self.rooms[i].vibe, self.rooms[i].surprise);
            i = i + 1;
            assert(graph.rooms@ =~= restored_rooms(self.rooms@).take(i as int));
        }
        let mut j: usize = 0;
        while j < self.edges.len()
            invariant
                j <= self.edges@.len(),
                graph.rooms@ =~= restored_rooms(self.rooms@),
                graph.edges@ =~= restored_edges(self.edges@).take(j as int),
            decreases self.edges@.len() - j,
        {
            let (from, to, weight) = self.edges[j];
            graph.add_edge(from, to, weight);
            j = j + 1;
            assert(graph.edges@ =~= restored_edges(self.edges@).take(j as int));
        }
        graph
    }
}

/// Snapshot and restore: restoring a snapshot of a graph built with
/// `add_room` gives back its rooms and edges exactly.
pub proof fn lemma_snapshot_restores_graph(
    s: Snapshot,
    tick: u64,
    rooms: Seq<Room>,
    edges: Seq<Edge>,
    readings: Seq<Vec<(u64, u64)>>,
    weights: Seq<Vec<u64>>,
)
    requires
        captures(s, tick, rooms, edges, readings, weights),
        sequential_ids(rooms),
    ensures
        restored_rooms(s.rooms@) == rooms,
        restored_edges(s.edges@) == edges,
{
    assert forall|i: int| 0 <= i < rooms.len() implies #[trigger] restored_rooms(s.rooms@)[i] == rooms[i] by {
        assert(s.rooms@[i].id == rooms[i].id);
        assert(rooms[i].id == i);
    }
    assert(restored_rooms(s.rooms@) =~= rooms);
    assert(restored_edges(s.edges@) =~= edges);
}

} // verus!
