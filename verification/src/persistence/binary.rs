//! The binary format:
//!
//! ```text
//! [magic:4 "GPAT"][version:2][room_count:4][edge_count:4]
//! [rooms: room_count * 20 bytes (id:4 + vibe:8 + surprise:8)]
//! [edges: edge_count * 16 bytes (from:4 + to:4 + weight:8)]
//! ```
//!
//! All integers are little-endian; `vibe`, `surprise` and `weight` are the
//! eight bytes of the `f64` bit pattern.
use vstd::prelude::*;
use vstd::bytes::{
    lemma_auto_spec_u32_to_from_le_bytes, lemma_auto_spec_u64_to_from_le_bytes,
    spec_u32_from_le_bytes, spec_u32_to_le_bytes, spec_u64_from_le_bytes, spec_u64_to_le_bytes,
    u32_from_le_bytes, u32_to_le_bytes, u64_from_le_bytes, u64_to_le_bytes,
};
use vstd::slice::slice_subrange;

use crate::graph::{sequential_ids, CellGraph, Edge, Room};
use crate::text::append_bytes;

verus! {

/// The major version this crate writes and the largest it reads.
pub const VERSION_MAJOR: u8 = 0;

/// The minor version this crate writes.
pub const VERSION_MINOR: u8 = 1;

/// Why a byte string is not a graph in the binary format.
#[derive(Debug, Clone, Copy, PartialEq, Eq, Structural)]
pub enum BinaryError {
    /// The bytes end before the header or the records it announces.
    UnexpectedEof,
    /// The first four bytes are not "GPAT".
    InvalidMagic,
    /// The major version is newer than `VERSION_MAJOR`.
    UnsupportedVersion { major: u8, minor: u8 },
}

/// The magic bytes "GPAT".
pub open spec fn magic() -> Seq<u8> {
    seq![71u8, 80u8, 65u8, 84u8]
}

/// The 14-byte header; counts that do not fit in 32 bits are truncated.
pub open spec fn header_bytes(room_count: nat, edge_count: nat) -> Seq<u8> {
    magic() + seq![VERSION_MAJOR, VERSION_MINOR] + spec_u32_to_le_bytes(room_count as u32)
        + spec_u32_to_le_bytes(edge_count as u32)
}

/// The 20-byte record of a room; an id that does not fit in 32 bits is truncated.
pub open spec fn room_record(r: Room) -> Seq<u8> {
    spec_u32_to_le_bytes(r.id as u32) + spec_u64_to_le_bytes(r.vibe) + spec_u64_to_le_bytes(
        r.surprise,
    )
}

/// The 16-byte record of an edge; endpoints that do not fit in 32 bits are truncated.
pub open spec fn edge_record(e: Edge) -> Seq<u8> {
    spec_u32_to_le_bytes(e.from as u32) + spec_u32_to_le_bytes(e.to as u32)
        + spec_u64_to_le_bytes(e.weight)
}

pub open spec fn rooms_bytes(rooms: Seq<Room>) -> Seq<u8>
    decreases rooms.len(),
{
    if rooms.len() == 0 {
        Seq::empty()
    } else {
        rooms_bytes(rooms.drop_last()) + room_record(rooms.last())
    }
}

pub open spec fn edges_bytes(edges: Seq<Edge>) -> Seq<u8>
    decreases edges.len(),
{
    if edges.len() == 0 {
        Seq::empty()
    } else {
        edges_bytes(edges.drop_last()) + edge_record(edges.last())
    }
}

/// The binary encoding of a graph with these rooms and edges.
pub open spec fn encoding(rooms: Seq<Room>, edges: Seq<Edge>) -> Seq<u8> {
    header_bytes(rooms.len(), edges.len()) + rooms_bytes(rooms) + edges_bytes(edges)
}

/// The little-endian `u32` at position `p`.
pub open spec fn u32_at(b: Seq<u8>, p: int) -> u32 {
    spec_u32_from_le_bytes(b.subrange(p, p + 4))
}

/// The little-endian `u64` at position `p`.
pub open spec fn u64_at(b: Seq<u8>, p: int) -> u64 {
    spec_u64_from_le_bytes(b.subrange(p, p + 8))
}

/// The room read from record `i` of the room table at `base`: its id is its
/// position, whatever id the record holds.
pub open spec fn room_at(b: Seq<u8>, base: int, i: int) -> Room {
    Room { id: i as usize, vibe: u64_at(b, base + 20 * i + 4), surprise: u64_at(b, base + 20 * i + 12) }
}

/// The edge read from record `i` of the edge table at `base`.
pub open spec fn edge_at(b: Seq<u8>, base: int, i: int) -> Edge {
    Edge {
        from: u32_at(b, base + 16 * i) as usize,
        to: u32_at(b, base + 16 * i + 4) as usize,
        weight: u64_at(b, base + 16 * i + 8),
    }
}

/// What reading a graph from `b` gives: the header is checked in order (magic,
/// then major version), and the records it announces must all be present;
/// bytes after them are ignored.
pub open spec fn decoding(b: Seq<u8>) -> Result<(Seq<Room>, Seq<Edge>), BinaryError> {
    if b.len() < 4 {
        Err(BinaryError::UnexpectedEof)
    } else if b.take(4) != magic() {
        Err(BinaryError::InvalidMagic)
    } else if b.len() < 6 {
        Err(BinaryError::UnexpectedEof)
    } else if b[4] > VERSION_MAJOR {
        Err(BinaryError::UnsupportedVersion { major: b[4], minor: b[5] })
    } else if b.len() < 14 {
        Err(BinaryError::UnexpectedEof)
    } else {
        let rc = u32_at(b, 6) as int;
        let ec = u32_at(b, 10) as int;
        let edges_base = 14 + 20 * rc;
        if b.len() < edges_base + 16 * ec {
            Err(BinaryError::UnexpectedEof)
        } else {
            Ok(
                (
                    Seq::new(rc as nat, |i: int| room_at(b, 14, i)),
                    Seq::new(ec as nat, |i: int| edge_at(b, edges_base, i)),
                ),
            )
        }
    }
}

/// `r` is what `decoding` gives.
pub open spec fn decodes_to(r: Result<CellGraph, BinaryError>, d: Result<(Seq<Room>, Seq<Edge>), BinaryError>) -> bool {
    match (r, d) {
        (Ok(g), Ok((rooms, edges))) => g.rooms@ == rooms && g.edges@ == edges,
        (Err(e1), Err(e2)) => e1 == e2,
        _ => false,
    }
}

/// Encodes a graph in the binary format.
pub fn encode_binary(graph: &CellGraph) -> (out: Vec<u8>)
    ensures
        out@ == encoding(graph.rooms@, graph.edges@),
{
    let mut out: Vec<u8> = Vec::new();
    out.push(71);
    out.push(80);
    out.push(65);
    out.push(84);
    out.push(VERSION_MAJOR);
    out.push(VERSION_MINOR);
    #[verifier::truncate]
    let rc: u32 = graph.rooms.len() as u32;
    #[verifier::truncate]
    let ec: u32 = graph.edges.len() as u32;
    let rcb = u32_to_le_bytes(rc);
    append_bytes(&mut out, rcb.as_slice());
    let ecb = u32_to_le_bytes(ec);
    append_bytes(&mut out, ecb.as_slice());
    assert(out@ =~= header_bytes(graph.rooms@.len(), graph.edges@.len()));
    let ghost header = out@;

    let mut i: usize = 0;
    while i < graph.rooms.len()
        invariant
            i <= graph.rooms@.len(),
            out@ == header + rooms_bytes(graph.rooms@.take(i as int)),
        decreases graph.rooms@.len() - i,
    {
        let room = graph.rooms[i];
        #[verifier::truncate]
        let id: u32 = room.id as u32;
        let b1 = u32_to_le_bytes(id);
        append_bytes(&mut out, b1.as_slice());
        let b2 = u64_to_le_bytes(room.vibe);
        append_bytes(&mut out, b2.as_slice());
        let b3 = u64_to_le_bytes(room.surprise);
        append_bytes(&mut out, b3.as_slice());
        i = i + 1;
        proof {
            let t = graph.rooms@.take(i as int);
            assert(t.drop_last() =~= graph.rooms@.take(i - 1));
            assert(t.last() == room);
            assert(out@ =~= header + rooms_bytes(t));
        }
    }
    assert(graph.rooms@.take(i as int) =~= graph.rooms@);
    let ghost with_rooms = out@;

    let mut j: usize = 0;
    while j < graph.edges.len()
        invariant
            j <= graph.edges@.len(),
            out@ == with_rooms + edges_bytes(graph.edges@.take(j as int)),
        decreases graph.edges@.len() - j,
    {
        let edge = graph.edges[j];
        #[verifier::truncate]
        let from: u32 = edge.from as u32;
        #[verifier::truncate]
        let to: u32 = edge.to as u32;
        let b1 = u32_to_le_bytes(from);
        append_bytes(&mut out, b1.as_slice());
        let b2 = u32_to_le_bytes(to);
        append_bytes(&mut out, b2.as_slice());
        let b3 = u64_to_le_bytes(edge.weight);
        append_bytes(&mut out, b3.as_slice());
        j = j + 1;
        proof {
            let t = graph.edges@.take(j as int);
            assert(t.drop_last() =~= graph.edges@.take(j - 1));
            assert(t.last() == edge);
            assert(out@ =~= with_rooms + edges_bytes(t));
        }
    }
    assert(graph.edges@.take(j as int) =~= graph.edges@);
    out
}

fn read_u32(b: &[u8], p: usize) -> (r: u32)
    requires
        p + 4 <= b@.len(),
    ensures
        r == u32_at(b@, p as int),
{
    let _n = b.len();
    u32_from_le_bytes(slice_subrange(b, p, p + 4))
}

fn read_u64(b: &[u8], p: usize) -> (r: u64)
    requires
        p + 8 <= b@.len(),
    ensures
        r == u64_at(b@, p as int),
{
    let _n = b.len();
    u64_from_le_bytes(slice_subrange(b, p, p + 8))
}

/// Decodes a graph from the binary format. Room ids are the records'
/// positions, as `CellGraph::add_room` assigns them.
pub fn decode_binary(b: &[u8]) -> (r: Result<CellGraph, BinaryError>)
    ensures
        decodes_to(r, decoding(b@)),
        r matches Ok(g) ==> sequential_ids(g.rooms@),
{
    let n = b.len();
    if n < 4 {
        return Err(BinaryError::UnexpectedEof);
    }
    if !(b[0] == 71 && b[1] == 80 && b[2] == 65 && b[3] == 84) {
        proof {
            if b@.take(4) == magic() {
                assert(b@.take(4)[0] == 71 && b@.take(4)[1] == 80);
                assert(b@.take(4)[2] == 65 && b@.take(4)[3] == 84);
            }
        }
        return Err(BinaryError::InvalidMagic);
    }
    assert(b@.take(4) =~= magic());
    if n < 6 {
        return Err(BinaryError::UnexpectedEof);
    }
    if b[4] > VERSION_MAJOR {
        return Err(BinaryError::UnsupportedVersion { major: b[4], minor: b[5] });
    }
    if n < 14 {
        return Err(BinaryError::UnexpectedEof);
    }
    let rc = read_u32(b, 6);
    let ec = read_u32(b, 10);
    let edges_base: u64 = 14 + 20 * (rc as u64);
    let total: u64 = edges_base + 16 * (ec as u64);
    if (n as u64) < total {
        return Err(BinaryError::UnexpectedEof);
    }
    let ghost expected_rooms = Seq::new(rc as nat, |i: int| room_at(b@, 14, i));
    let ghost expected_edges = Seq::new(ec as nat, |i: int| edge_at(b@, edges_base as int, i));
    let mut graph = CellGraph::new();
    let mut i: usize = 0;
    while i < rc as usize
        invariant
            n == b@.len(),
            14 + 20 * (rc as int) + 16 * (ec as int) <= n,
            i <= rc,
            graph.rooms@ =~= expected_rooms.take(i as int),
            graph.edges@ == Seq::<Edge>::empty(),
            expected_rooms == Seq::new(rc as nat, |i: int| room_at(b@, 14, i)),
        decreases rc - i,
    {
        let p: usize = 14 + 20 * i;
        let vibe = read_u64(b, p + 4);
        let surprise = read_u64(b, p + 12);
        let id = graph.add_room(vibe, surprise);
        i = i + 1;
        assert(graph.rooms@ =~= expected_rooms.take(i as int));
    }
    let eb: usize = 14 + 20 * (rc as usize);
    let mut j: usize = 0;
    while j < ec as usize
        invariant
            n == b@.len(),
            eb == edges_base,
            eb + 16 * (ec as int) <= n,
            j <= ec,
            graph.rooms@ == expected_rooms,
            graph.edges@ =~= expected_edges.take(j as int),
            expected_edges == Seq::new(ec as nat, |i: int| edge_at(b@, edges_base as int, i)),
        decreases ec - j,
    {
        let p: usize = eb + 16 * j;
        let from = read_u32(b, p);
        let to = read_u32(b, p + 4);
        let weight = read_u64(b, p + 8);
        graph.add_edge(from as usize, to as usize, weight);
        j = j + 1;
        assert(graph.edges@ =~= expected_edges.take(j as int));
    }
    assert(graph.rooms@ =~= expected_rooms);
    assert(graph.edges@ =~= expected_edges);
    Ok(graph)
}

// ───────────── laws ─────────────

proof fn lemma_room_record(r: Room)
    ensures
        room_record(r).len() == 20,
        room_record(r).subrange(0, 4) == spec_u32_to_le_bytes(r.id as u32),
        room_record(r).subrange(4, 12) == spec_u64_to_le_bytes(r.vibe),
        room_record(r).subrange(12, 20) == spec_u64_to_le_bytes(r.surprise),
{
    lemma_auto_spec_u32_to_from_le_bytes();
    lemma_auto_spec_u64_to_from_le_bytes();
    let a = spec_u32_to_le_bytes(r.id as u32);
    let v = spec_u64_to_le_bytes(r.vibe);
    let s = spec_u64_to_le_bytes(r.surprise);
    assert(room_record(r).subrange(0, 4) =~= a);
    assert(room_record(r).subrange(4, 12) =~= v);
    assert(room_record(r).subrange(12, 20) =~= s);
}

proof fn lemma_edge_record(e: Edge)
    ensures
        edge_record(e).len() == 16,
        edge_record(e).subrange(0, 4) == spec_u32_to_le_bytes(e.from as u32),
        edge_record(e).subrange(4, 8) == spec_u32_to_le_bytes(e.to as u32),
        edge_record(e).subrange(8, 16) == spec_u64_to_le_bytes(e.weight),
{
    lemma_auto_spec_u32_to_from_le_bytes();
    lemma_auto_spec_u64_to_from_le_bytes();
    assert(edge_record(e).subrange(0, 4) =~= spec_u32_to_le_bytes(e.from as u32));
    assert(edge_record(e).subrange(4, 8) =~= spec_u32_to_le_bytes(e.to as u32));
    assert(edge_record(e).subrange(8, 16) =~= spec_u64_to_le_bytes(e.weight));
}

proof fn lemma_rooms_bytes(rooms: Seq<Room>)
    ensures
        rooms_bytes(rooms).len() == 20 * rooms.len(),
        forall|i: int|
            0 <= i < rooms.len() ==> #[trigger] rooms_bytes(rooms).subrange(20 * i, 20 * i + 20)
                == room_record(rooms[i]),
    decreases rooms.len(),
{
    if rooms.len() > 0 {
        let init = rooms.drop_last();
        lemma_rooms_bytes(init);
        lemma_room_record(rooms.last());
        let b = rooms_bytes(rooms);
        assert forall|i: int| 0 <= i < rooms.len() implies #[trigger] b.subrange(20 * i, 20 * i + 20)
            == room_record(rooms[i]) by {
            if i < rooms.len() - 1 {
                assert(b.subrange(20 * i, 20 * i + 20) =~= rooms_bytes(init).subrange(20 * i, 20 * i + 20));
                assert(init[i] == rooms[i]);
            } else {
                assert(b.subrange(20 * i, 20 * i + 20) =~= room_record(rooms.last()));
            }
        }
    }
}

proof fn lemma_edges_bytes(edges: Seq<Edge>)
    ensures
        edges_bytes(edges).len() == 16 * edges.len(),
        forall|i: int|
            0 <= i < edges.len() ==> #[trigger] edges_bytes(edges).subrange(16 * i, 16 * i + 16)
                == edge_record(edges[i]),
    decreases edges.len(),
{
    if edges.len() > 0 {
        let init = edges.drop_last();
        lemma_edges_bytes(init);
        lemma_edge_record(edges.last());
        let b = edges_bytes(edges);
        assert forall|i: int| 0 <= i < edges.len() implies #[trigger] b.subrange(16 * i, 16 * i + 16)
            == edge_record(edges[i]) by {
            if i < edges.len() - 1 {
                assert(b.subrange(16 * i, 16 * i + 16) =~= edges_bytes(init).subrange(16 * i, 16 * i + 16));
                assert(init[i] == edges[i]);
            } else {
                assert(b.subrange(16 * i, 16 * i + 16) =~= edge_record(edges.last()));
            }
        }
    }
}

/// The encoding is 14 header bytes, 20 bytes per room and 16 bytes per edge.
pub proof fn lemma_encoding_len(rooms: Seq<Room>, edges: Seq<Edge>)
    ensures
        encoding(rooms, edges).len() == 14 + 20 * rooms.len() + 16 * edges.len(),
{
    lemma_auto_spec_u32_to_from_le_bytes();
    lemma_rooms_bytes(rooms);
    lemma_edges_bytes(edges);
}

/// The layout of the binary encoding: "GPAT", version 0.1, the room and edge
/// counts, then each room's id, vibe and surprise and each edge's endpoints
/// and weight at their places, all little-endian (counts, ids and endpoints
/// cut to 32 bits).
pub proof fn lemma_encoding_layout(rooms: Seq<Room>, edges: Seq<Edge>)
    ensures
        encoding(rooms, edges).len() == 14 + 20 * rooms.len() + 16 * edges.len(),
        encoding(rooms, edges).subrange(0, 4) == seq![71u8, 80u8, 65u8, 84u8],
        encoding(rooms, edges)[4] == 0,
        encoding(rooms, edges)[5] == 1,
        encoding(rooms, edges).subrange(6, 10) == spec_u32_to_le_bytes(rooms.len() as u32),
        encoding(rooms, edges).subrange(10, 14) == spec_u32_to_le_bytes(edges.len() as u32),
        forall|i: int|
            0 <= i < rooms.len() ==> {
                &&& encoding(rooms, edges).subrange(14 + 20 * i, 18 + 20 * i) == spec_u32_to_le_bytes(
                    (#[trigger] rooms[i]).id as u32,
                )
                &&& encoding(rooms, edges).subrange(18 + 20 * i, 26 + 20 * i) == spec_u64_to_le_bytes(rooms[i].vibe)
                &&& encoding(rooms, edges).subrange(26 + 20 * i, 34 + 20 * i) == spec_u64_to_le_bytes(
                    rooms[i].surprise,
                )
            },
        forall|j: int|
            0 <= j < edges.len() ==> {
                let p = 14 + 20 * rooms.len() + 16 * j;
                &&& encoding(rooms, edges).subrange(p, p + 4) == spec_u32_to_le_bytes((#[trigger] edges[j]).from as u32)
                &&& encoding(rooms, edges).subrange(p + 4, p + 8) == spec_u32_to_le_bytes(edges[j].to as u32)
                &&& encoding(rooms, edges).subrange(p + 8, p + 16) == spec_u64_to_le_bytes(edges[j].weight)
            },
{
    lemma_auto_spec_u32_to_from_le_bytes();
    lemma_auto_spec_u64_to_from_le_bytes();
    lemma_rooms_bytes(rooms);
    lemma_edges_bytes(edges);
    let h = header_bytes(rooms.len(), edges.len());
    let rb = rooms_bytes(rooms);
    let eb = edges_bytes(edges);
    let b = encoding(rooms, edges);
    assert(h.len() == 14);
    assert(b == h + rb + eb);
    assert(b.subrange(0, 4) =~= seq![71u8, 80u8, 65u8, 84u8]);
    assert(b.subrange(6, 10) =~= spec_u32_to_le_bytes(rooms.len() as u32));
    assert(b.subrange(10, 14) =~= spec_u32_to_le_bytes(edges.len() as u32));
    assert forall|i: int| 0 <= i < rooms.len() implies {
        &&& b.subrange(14 + 20 * i, 18 + 20 * i) == spec_u32_to_le_bytes((#[trigger] rooms[i]).id as u32)
        &&& b.subrange(18 + 20 * i, 26 + 20 * i) == spec_u64_to_le_bytes(rooms[i].vibe)
        &&& b.subrange(26 + 20 * i, 34 + 20 * i) == spec_u64_to_le_bytes(rooms[i].surprise)
    } by {
        let r = rooms[i];
        lemma_room_record(r);
        assert(rb.subrange(20 * i, 20 * i + 20) == room_record(r));
        assert(b.subrange(14 + 20 * i, 18 + 20 * i) =~= room_record(r).subrange(0, 4));
        assert(b.subrange(18 + 20 * i, 26 + 20 * i) =~= room_record(r).subrange(4, 12));
        assert(b.subrange(26 + 20 * i, 34 + 20 * i) =~= room_record(r).subrange(12, 20));
    }
    assert forall|j: int| 0 <= j < edges.len() implies {
        let p = 14 + 20 * rooms.len() + 16 * j;
        &&& b.subrange(p, p + 4) == spec_u32_to_le_bytes((#[trigger] edges[j]).from as u32)
        &&& b.subrange(p + 4, p + 8) == spec_u32_to_le_bytes(edges[j].to as u32)
        &&& b.subrange(p + 8, p + 16) == spec_u64_to_le_bytes(edges[j].weight)
    } by {
        let e = edges[j];
        let p = 14 + 20 * rooms.len() + 16 * j;
        lemma_edge_record(e);
        assert(eb.subrange(16 * j, 16 * j + 16) == edge_record(e));
        assert(b.subrange(p, p + 4) =~= edge_record(e).subrange(0, 4));
        assert(b.subrange(p + 4, p + 8) =~= edge_record(e).subrange(4, 8));
        assert(b.subrange(p + 8, p + 16) =~= edge_record(e).subrange(8, 16));
    }
}

/// Reading does not look at the minor version: a text with the magic and
/// major version 0 reads the same whatever its sixth byte.
pub proof fn lemma_minor_version_ignored(b: Seq<u8>, minor: u8)
    requires
        b.len() >= 6,
        b.take(4) == seq![71u8, 80u8, 65u8, 84u8],
        b[4] == 0,
    ensures
        decoding(b.update(5, minor)) == decoding(b),
{
    let c = b.update(5, minor);
    assert(c.take(4) =~= b.take(4));
    if b.len() >= 14 {
        assert(c.subrange(6, 10) =~= b.subrange(6, 10));
        assert(c.subrange(10, 14) =~= b.subrange(10, 14));
        let rc = u32_at(b, 6) as int;
        let ec = u32_at(b, 10) as int;
        if b.len() >= 14 + 20 * rc + 16 * ec {
            assert forall|i: int| 0 <= i < rc implies #[trigger] room_at(c, 14, i) == room_at(b, 14, i) by {
                assert(c.subrange(14 + 20 * i + 4, 14 + 20 * i + 12) =~= b.subrange(14 + 20 * i + 4, 14 + 20 * i + 12));
                assert(c.subrange(14 + 20 * i + 12, 14 + 20 * i + 20) =~= b.subrange(14 + 20 * i + 12, 14 + 20 * i + 20));
            }
            let base = 14 + 20 * rc;
            assert forall|i: int| 0 <= i < ec implies #[trigger] edge_at(c, base, i) == edge_at(b, base, i) by {
                assert(c.subrange(base + 16 * i, base + 16 * i + 4) =~= b.subrange(base + 16 * i, base + 16 * i + 4));
                assert(c.subrange(base + 16 * i + 4, base + 16 * i + 8) =~= b.subrange(base + 16 * i + 4, base + 16 * i + 8));
                assert(c.subrange(base + 16 * i + 8, base + 16 * i + 16) =~= b.subrange(base + 16 * i + 8, base + 16 * i + 16));
            }
            assert(Seq::new(rc as nat, |i: int| room_at(c, 14, i)) =~= Seq::new(rc as nat, |i: int| room_at(b, 14, i)));
            assert(Seq::new(ec as nat, |i: int| edge_at(c, base, i)) =~= Seq::new(ec as nat, |i: int| edge_at(b, base, i)));
        }
    }
}

/// Reading ignores what follows the records: bytes that read as a graph read
/// as the same graph with anything appended.
pub proof fn lemma_trailing_bytes_ignored(b: Seq<u8>, extra: Seq<u8>)
    requires
        decoding(b) is Ok,
    ensures
        decoding(b + extra) == decoding(b),
{
    let c = b + extra;
    assert(c.take(4) =~= b.take(4));
    assert(c.subrange(6, 10) =~= b.subrange(6, 10));
    assert(c.subrange(10, 14) =~= b.subrange(10, 14));
    let rc = u32_at(b, 6) as int;
    let ec = u32_at(b, 10) as int;
    let base = 14 + 20 * rc;
    assert forall|i: int| 0 <= i < rc implies #[trigger] room_at(c, 14, i) == room_at(b, 14, i) by {
        assert(c.subrange(14 + 20 * i + 4, 14 + 20 * i + 12) =~= b.subrange(14 + 20 * i + 4, 14 + 20 * i + 12));
        assert(c.subrange(14 + 20 * i + 12, 14 + 20 * i + 20) =~= b.subrange(14 + 20 * i + 12, 14 + 20 * i + 20));
    }
    assert forall|i: int| 0 <= i < ec implies #[trigger] edge_at(c, base, i) == edge_at(b, base, i) by {
        assert(c.subrange(base + 16 * i, base + 16 * i + 4) =~= b.subrange(base + 16 * i, base + 16 * i + 4));
        assert(c.subrange(base + 16 * i + 4, base + 16 * i + 8) =~= b.subrange(base + 16 * i + 4, base + 16 * i + 8));
        assert(c.subrange(base + 16 * i + 8, base + 16 * i + 16) =~= b.subrange(base + 16 * i + 8, base + 16 * i + 16));
    }
    assert(Seq::new(rc as nat, |i: int| room_at(c, 14, i)) =~= Seq::new(rc as nat, |i: int| room_at(b, 14, i)));
    assert(Seq::new(ec as nat, |i: int| edge_at(c, base, i)) =~= Seq::new(ec as nat, |i: int| edge_at(b, base, i)));
}

/// The rooms that reading back an encoding gives: each renumbered by its position.
pub open spec fn renumbered(rooms: Seq<Room>) -> Seq<Room> {
    Seq::new(rooms.len(), |i: int| Room { id: i as usize, vibe: rooms[i].vibe, surprise: rooms[i].surprise })
}

/// The edges that reading back an encoding gives: endpoints cut to 32 bits.
pub open spec fn endpoints_cut(edges: Seq<Edge>) -> Seq<Edge> {
    Seq::new(
        edges.len(),
        |i: int|
            Edge {
                from: (edges[i].from as u32) as usize,
                to: (edges[i].to as u32) as usize,
                weight: edges[i].weight,
            },
    )
}

/// Save and restore: reading back the binary encoding of a graph gives its
/// rooms in order with their vibe and surprise bits, numbered by position, and
/// its edges in order with their weight bits and their endpoints cut to 32
/// bits, whenever both counts fit in 32 bits.
pub proof fn lemma_binary_roundtrip(rooms: Seq<Room>, edges: Seq<Edge>)
    requires
        rooms.len() <= u32::MAX,
        edges.len() <= u32::MAX,
    ensures
        decoding(encoding(rooms, edges)) == Ok::<_, BinaryError>((renumbered(rooms), endpoints_cut(edges))),
{
    lemma_auto_spec_u32_to_from_le_bytes();
    lemma_auto_spec_u64_to_from_le_bytes();
    lemma_rooms_bytes(rooms);
    lemma_edges_bytes(edges);
    let h = header_bytes(rooms.len(), edges.len());
    let rb = rooms_bytes(rooms);
    let eb = edges_bytes(edges);
    let b = encoding(rooms, edges);
    assert(h.len() == 14);
    assert(b.take(4) =~= magic());
    assert(b[4] == VERSION_MAJOR);
    assert(b.subrange(6, 10) =~= spec_u32_to_le_bytes(rooms.len() as u32));
    assert(b.subrange(10, 14) =~= spec_u32_to_le_bytes(edges.len() as u32));
    let rc = u32_at(b, 6) as int;
    let ec = u32_at(b, 10) as int;
    assert(rc == rooms.len());
    assert(ec == edges.len());
    let base = 14 + 20 * rc;
    let got_rooms = Seq::new(rc as nat, |i: int| room_at(b, 14, i));
    let got_edges = Seq::new(ec as nat, |i: int| edge_at(b, base, i));
    assert forall|i: int| 0 <= i < rooms.len() implies #[trigger] got_rooms[i] == renumbered(rooms)[i] by {
        let r = rooms[i];
        assert(rb.subrange(20 * i, 20 * i + 20) == room_record(r));
        lemma_room_record(r);
        assert(b.subrange(14 + 20 * i + 4, 14 + 20 * i + 12) =~= room_record(r).subrange(4, 12));
        assert(b.subrange(14 + 20 * i + 12, 14 + 20 * i + 20) =~= room_record(r).subrange(12, 20));
    }
    assert forall|i: int| 0 <= i < edges.len() implies #[trigger] got_edges[i] == endpoints_cut(edges)[i] by {
        let e = edges[i];
        assert(eb.subrange(16 * i, 16 * i + 16) == edge_record(e));
        lemma_edge_record(e);
        assert(b.subrange(base + 16 * i, base + 16 * i + 4) =~= edge_record(e).subrange(0, 4));
        assert(b.subrange(base + 16 * i + 4, base + 16 * i + 8) =~= edge_record(e).subrange(4, 8));
        assert(b.subrange(base + 16 * i + 8, base + 16 * i + 16) =~= edge_record(e).subrange(8, 16));
    }
    assert(got_rooms =~= renumbered(rooms));
    assert(got_edges =~= endpoints_cut(edges));
}

/// A graph built with `add_room`, whose counts and edge endpoints fit in 32
/// bits, reads back from its binary encoding exactly.
pub proof fn lemma_binary_roundtrip_exact(rooms: Seq<Room>, edges: Seq<Edge>)
    requires
        sequential_ids(rooms),
        rooms.len() <= u32::MAX,
        edges.len() <= u32::MAX,
        forall|i: int| 0 <= i < edges.len() ==> #[trigger] edges[i].from <= u32::MAX && edges[i].to <= u32::MAX,
    ensures
        decoding(encoding(rooms, edges)) == Ok::<_, BinaryError>((rooms, edges)),
{
    lemma_binary_roundtrip(rooms, edges);
    assert forall|i: int| 0 <= i < rooms.len() implies #[trigger] renumbered(rooms)[i] == rooms[i] by {
        assert(rooms[i].id == i);
    }
    assert(renumbered(rooms) =~= rooms);
    assert(endpoints_cut(edges) =~= edges);
}

} // verus!
