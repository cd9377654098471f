//! The JSON text of a snapshot:
//!
//! ```text
//! {"tick":T,"rooms":[{"id":I,"vibe":V,"surprise":S,"jepa_readings":[[ts,val],...],"jepa_weights":[w,...]},...],"edges":[[from,to,weight],...]}
//! ```
//!
//! The `f64` values travel as their decimal texts, which the caller writes
//! with `f64`'s `Display` and reads with `str::parse::<f64>`. Reading checks
//! the texts of a room's vibe and surprise against what that parse accepts;
//! the texts of readings, weights and edge weights are handed out as found.
use vstd::prelude::*;
use vstd::slice::{slice_subrange, slice_to_vec};

use crate::persistence::json::{
    array_end, edges_v, find_array_end, json_value_text, value_text, EdgeText,
};
use crate::text::{
    append_bytes, decimal, find, find_bytes, find_closing, first_close_from, first_of,
    first_of_exec, group_contents, join_commas, lemma_find_from_found, lemma_first_close_from, lit,
    lit_bytes, parse_unsigned, parse_unsigned_bounded, push_decimal, push_lit, slices_view,
    split_at_byte, split_bytes, split_group_contents, trim, trim_bytes,
};

use crate::float_text::{check_float_text, index_value, is_float_text, read_index, IndexText, IndexValue};

verus! {

/// A JEPA reading: the texts of its timestamp and value.
#[derive(Debug, Clone)]
pub struct ReadingText {
    pub timestamp: Vec<u8>,
    pub value: Vec<u8>,
}

impl View for ReadingText {
    type V = (Seq<u8>, Seq<u8>);

    open spec fn view(&self) -> (Seq<u8>, Seq<u8>) {
        (self.timestamp@, self.value@)
    }
}

/// A room of a snapshot's text: its id and the texts of its numbers.
#[derive(Debug, Clone)]
pub struct RoomSnapshotText {
    pub id: usize,
    pub vibe: Vec<u8>,
    pub surprise: Vec<u8>,
    pub jepa_readings: Vec<ReadingText>,
    pub jepa_weights: Vec<Vec<u8>>,
}

/// The content of a `RoomSnapshotText`.
pub struct RoomSnapshotView {
    pub id: usize,
    pub vibe: Seq<u8>,
    pub surprise: Seq<u8>,
    pub readings: Seq<(Seq<u8>, Seq<u8>)>,
    pub weights: Seq<Seq<u8>>,
}

pub open spec fn readings_v(v: Seq<ReadingText>) -> Seq<(Seq<u8>, Seq<u8>)> {
    v.map_values(|r: ReadingText| r@)
}

pub open spec fn texts_v(v: Seq<Vec<u8>>) -> Seq<Seq<u8>> {
    v.map_values(|t: Vec<u8>| t@)
}

impl View for RoomSnapshotText {
    type V = RoomSnapshotView;

    open spec fn view(&self) -> RoomSnapshotView {
        RoomSnapshotView {
            id: self.id,
            vibe: self.vibe@,
            surprise: self.surprise@,
            readings: readings_v(self.jepa_readings@),
            weights: texts_v(self.jepa_weights@),
        }
    }
}

pub open spec fn room_snapshots_v(v: Seq<RoomSnapshotText>) -> Seq<RoomSnapshotView> {
    v.map_values(|r: RoomSnapshotText| r@)
}

/// A snapshot as its text carries it.
#[derive(Debug, Clone)]
pub struct SnapshotText {
    pub tick: u64,
    pub rooms: Vec<RoomSnapshotText>,
    pub edges: Vec<EdgeText>,
}

/// An edge as read from a snapshot's text: an endpoint that is not a `usize`
/// is `None`, and the weight is the text found.
#[derive(Debug, Clone)]
pub struct ParsedEdgeText {
    pub from: Option<usize>,
    pub to: Option<usize>,
    pub weight: Vec<u8>,
}

impl View for ParsedEdgeText {
    type V = (Option<usize>, Option<usize>, Seq<u8>);

    open spec fn view(&self) -> (Option<usize>, Option<usize>, Seq<u8>) {
        (self.from, self.to, self.weight@)
    }
}

pub open spec fn parsed_edges_v(v: Seq<ParsedEdgeText>) -> Seq<(Option<usize>, Option<usize>, Seq<u8>)> {
    v.map_values(|e: ParsedEdgeText| e@)
}

/// A room as read from a snapshot's text: its id as the id's text gives it,
/// and the texts of its numbers.
#[derive(Debug, Clone)]
pub struct ParsedRoomText {
    pub id: IndexText,
    pub vibe: Vec<u8>,
    pub surprise: Vec<u8>,
    pub jepa_readings: Vec<ReadingText>,
    pub jepa_weights: Vec<Vec<u8>>,
}

/// The content of a `ParsedRoomText`.
pub struct ParsedRoomView {
    pub id: IndexValue,
    pub vibe: Seq<u8>,
    pub surprise: Seq<u8>,
    pub readings: Seq<(Seq<u8>, Seq<u8>)>,
    pub weights: Seq<Seq<u8>>,
}

impl View for ParsedRoomText {
    type V = ParsedRoomView;

    open spec fn view(&self) -> ParsedRoomView {
        ParsedRoomView {
            id: self.id@,
            vibe: self.vibe@,
            surprise: self.surprise@,
            readings: readings_v(self.jepa_readings@),
            weights: texts_v(self.jepa_weights@),
        }
    }
}

pub open spec fn parsed_rooms_v(v: Seq<ParsedRoomText>) -> Seq<ParsedRoomView> {
    v.map_values(|r: ParsedRoomText| r@)
}

/// A snapshot as read from its text.
#[derive(Debug, Clone)]
pub struct ParsedSnapshotText {
    pub tick: u64,
    pub rooms: Vec<ParsedRoomText>,
    pub edges: Vec<ParsedEdgeText>,
}

/// Why a text is not a snapshot.
#[derive(Debug, Clone)]
pub enum SnapshotError {
    MissingTick,
    BadTick,
    MissingRooms,
    UnclosedRooms,
    UnclosedRoomObject,
    /// A byte of a multi-byte character stands between room objects, where
    /// the text is scanned byte by byte.
    NonAsciiBetweenRooms,
    MissingKey(Vec<u8>),
    /// The value of this key is not a number.
    BadNumber(Vec<u8>),
    MissingEdges,
    UnclosedEdges,
}

/// The content of a `SnapshotError`.
pub enum SnapshotFault {
    MissingTick,
    BadTick,
    MissingRooms,
    UnclosedRooms,
    UnclosedRoomObject,
    NonAsciiBetweenRooms,
    MissingKey(Seq<u8>),
    BadNumber(Seq<u8>),
    MissingEdges,
    UnclosedEdges,
}

impl View for SnapshotError {
    type V = SnapshotFault;

    open spec fn view(&self) -> SnapshotFault {
        match self {
            SnapshotError::MissingTick => SnapshotFault::MissingTick,
            SnapshotError::BadTick => SnapshotFault::BadTick,
            SnapshotError::MissingRooms => SnapshotFault::MissingRooms,
            SnapshotError::UnclosedRooms => SnapshotFault::UnclosedRooms,
            SnapshotError::UnclosedRoomObject => SnapshotFault::UnclosedRoomObject,
            SnapshotError::NonAsciiBetweenRooms => SnapshotFault::NonAsciiBetweenRooms,
            SnapshotError::MissingKey(k) => SnapshotFault::MissingKey(k@),
            SnapshotError::BadNumber(k) => SnapshotFault::BadNumber(k@),
            SnapshotError::MissingEdges => SnapshotFault::MissingEdges,
            SnapshotError::UnclosedEdges => SnapshotFault::UnclosedEdges,
        }
    }
}

// ───────────── writing ─────────────

/// `[ts,val]`
pub open spec fn reading_json(r: (Seq<u8>, Seq<u8>)) -> Seq<u8> {
    seq![91u8] + r.0 + seq![44u8] + r.1 + seq![93u8]
}

/// `{"id":I,"vibe":V,"surprise":S,"jepa_readings":[...],"jepa_weights":[...]}`
pub open spec fn room_snapshot_json(r: RoomSnapshotView) -> Seq<u8> {
    lit("{\"id\":") + decimal(r.id as nat) + lit(",\"vibe\":") + r.vibe + lit(",\"surprise\":")
        + r.surprise + lit(",\"jepa_readings\":[") + join_commas(
        r.readings.map_values(|p: (Seq<u8>, Seq<u8>)| reading_json(p)),
    ) + lit("],\"jepa_weights\":[") + join_commas(r.weights) + lit("]}")
}

/// `[from,to,weight]`
pub open spec fn triple_json(e: (usize, usize, Seq<u8>)) -> Seq<u8> {
    seq![91u8] + decimal(e.0 as nat) + seq![44u8] + decimal(e.1 as nat) + seq![44u8] + e.2 + seq![
        93u8,
    ]
}

/// The text of a snapshot.
pub open spec fn snapshot_json(
    tick: u64,
    rooms: Seq<RoomSnapshotView>,
    edges: Seq<(usize, usize, Seq<u8>)>,
) -> Seq<u8> {
    lit("{\"tick\":") + decimal(tick as nat) + lit(",\"rooms\":[") + join_commas(
        rooms.map_values(|r: RoomSnapshotView| room_snapshot_json(r)),
    ) + lit("],\"edges\":[") + join_commas(
        edges.map_values(|e: (usize, usize, Seq<u8>)| triple_json(e)),
    ) + lit("]}")
}

fn push_reading_json(out: &mut Vec<u8>, r: &ReadingText)
    ensures
        final(out)@ == old(out)@ + reading_json(r@),
{
    out.push(91);
    append_bytes(out, r.timestamp.as_slice());
    out.push(44);
    append_bytes(out, r.value.as_slice());
    out.push(93);
    assert(final(out)@ =~= old(out)@ + reading_json(r@));
}

fn push_joined_readings(out: &mut Vec<u8>, rs: &Vec<ReadingText>)
    ensures
        final(out)@ == old(out)@ + join_commas(
            readings_v(rs@).map_values(|p: (Seq<u8>, Seq<u8>)| reading_json(p)),
        ),
{
    let ghost items = readings_v(rs@).map_values(|p: (Seq<u8>, Seq<u8>)| reading_json(p));
    let ghost start = old(out)@;
    let mut i: usize = 0;
    while i < rs.len()
        invariant
            i <= rs@.len(),
            items == readings_v(rs@).map_values(|p: (Seq<u8>, Seq<u8>)| reading_json(p)),
            out@ == start + join_commas(items.take(i as int)),
        decreases rs@.len() - i,
    {
        if i > 0 {
            out.push(44);
        }
        push_reading_json(out, &rs[i]);
        i = i + 1;
        proof {
            let t = items.take(i as int);
            assert(t.drop_last() =~= items.take(i - 1));
            if i == 1 {
                assert(items.take(0) =~= Seq::<Seq<u8>>::empty());
            }
            assert(out@ =~= start + join_commas(t));
        }
    }
    assert(items.take(i as int) =~= items);
}

fn push_joined_texts(out: &mut Vec<u8>, ws: &Vec<Vec<u8>>)
    ensures
        final(out)@ == old(out)@ + join_commas(texts_v(ws@)),
{
    let ghost items = texts_v(ws@);
    let ghost start = old(out)@;
    let mut i: usize = 0;
    while i < ws.len()
        invariant
            i <= ws@.len(),
            items == texts_v(ws@),
            out@ == start + join_commas(items.take(i as int)),
        decreases ws@.len() - i,
    {
        if i > 0 {
            out.push(44);
        }
        append_bytes(out, ws[i].as_slice());
        i = i + 1;
        proof {
            let t = items.take(i as int);
            assert(t.drop_last() =~= items.take(i - 1));
            if i == 1 {
                assert(items.take(0) =~= Seq::<Seq<u8>>::empty());
            }
            assert(out@ =~= start + join_commas(t));
        }
    }
    assert(items.take(i as int) =~= items);
}

fn push_room_snapshot_json(out: &mut Vec<u8>, r: &RoomSnapshotText)
    ensures
        final(out)@ == old(out)@ + room_snapshot_json(r@),
{
    proof {
        reveal_strlit("{\"id\":");
        reveal_strlit(",\"vibe\":");
        reveal_strlit(",\"surprise\":");
        reveal_strlit(",\"jepa_readings\":[");
        reveal_strlit("],\"jepa_weights\":[");
        reveal_strlit("]}");
    }
    push_lit(out, "{\"id\":");
    push_decimal(out, r.id as u64);
    push_lit(out, ",\"vibe\":");
    append_bytes(out, r.vibe.as_slice());
    push_lit(out, ",\"surprise\":");
    append_bytes(out, r.surprise.as_slice());
    push_lit(out, ",\"jepa_readings\":[");
    push_joined_readings(out, &r.jepa_readings);
    push_lit(out, "],\"jepa_weights\":[");
    push_joined_texts(out, &r.jepa_weights);
    push_lit(out, "]}");
    assert(final(out)@ =~= old(out)@ + room_snapshot_json(r@));
}

fn push_triple_json(out: &mut Vec<u8>, e: &EdgeText)
    ensures
        final(out)@ == old(out)@ + triple_json(e@),
{
    out.push(91);
    push_decimal(out, e.from as u64);
    out.push(44);
    push_decimal(out, e.to as u64);
    out.push(44);
    append_bytes(out, e.weight.as_slice());
    out.push(93);
    assert(final(out)@ =~= old(out)@ + triple_json(e@));
}

/// Writes the text of a snapshot.
pub fn render_snapshot_json(s: &SnapshotText) -> (out: Vec<u8>)
    ensures
        out@ == snapshot_json(s.tick, room_snapshots_v(s.rooms@), edges_v(s.edges@)),
{
    let ghost room_items = room_snapshots_v(s.rooms@).map_values(
        |r: RoomSnapshotView| room_snapshot_json(r),
    );
    let ghost edge_items = edges_v(s.edges@).map_values(
        |e: (usize, usize, Seq<u8>)| triple_json(e),
    );
    proof {
        reveal_strlit("{\"tick\":");
        reveal_strlit(",\"rooms\":[");
        reveal_strlit("],\"edges\":[");
        reveal_strlit("]}");
    }
    let mut out: Vec<u8> = Vec::new();
    push_lit(&mut out, "{\"tick\":");
    push_decimal(&mut out, s.tick);
    push_lit(&mut out, ",\"rooms\":[");
    let ghost start = out@;
    let mut i: usize = 0;
    while i < s.rooms.len()
        invariant
            i <= s.rooms@.len(),
            room_items == room_snapshots_v(s.rooms@).map_values(
                |r: RoomSnapshotView| room_snapshot_json(r),
            ),
            out@ == start + join_commas(room_items.take(i as int)),
        decreases s.rooms@.len() - i,
    {
        if i > 0 {
            out.push(44);
        }
        push_room_snapshot_json(&mut out, &s.rooms[i]);
        i = i + 1;
        proof {
            let t = room_items.take(i as int);
            assert(t.drop_last() =~= room_items.take(i - 1));
            assert(t.last() == room_snapshot_json(s.rooms@[i - 1]@));
            if i == 1 {
                assert(room_items.take(0) =~= Seq::<Seq<u8>>::empty());
            }
            assert(out@ =~= start + join_commas(t));
        }
    }
    assert(room_items.take(i as int) =~= room_items);
    push_lit(&mut out, "],\"edges\":[");
    let ghost mid = out@;
    let mut j: usize = 0;
    while j < s.edges.len()
        invariant
            j <= s.edges@.len(),
            edge_items == edges_v(s.edges@).map_values(
                |e: (usize, usize, Seq<u8>)| triple_json(e),
            ),
            out@ == mid + join_commas(edge_items.take(j as int)),
        decreases s.edges@.len() - j,
    {
        if j > 0 {
            out.push(44);
        }
        push_triple_json(&mut out, &s.edges[j]);
        j = j + 1;
        proof {
            let t = edge_items.take(j as int);
            assert(t.drop_last() =~= edge_items.take(j - 1));
            assert(t.last() == triple_json(s.edges@[j - 1]@));
            if j == 1 {
                assert(edge_items.take(0) =~= Seq::<Seq<u8>>::empty());
            }
            assert(out@ =~= mid + join_commas(t));
        }
    }
    assert(edge_items.take(j as int) =~= edge_items);
    push_lit(&mut out, "]}");
    assert(out@ =~= snapshot_json(s.tick, room_snapshots_v(s.rooms@), edges_v(s.edges@)));
    out
}

// ───────────── reading ─────────────

/// The value text of `key`, which must be a number's text: the fault of a
/// missing key, or of a text that `str::parse::<f64>` refuses.
pub open spec fn snap_text_field(obj: Seq<u8>, key: Seq<u8>) -> Result<Seq<u8>, SnapshotFault> {
    match value_text(obj, key) {
        None => Err(SnapshotFault::MissingKey(key)),
        Some(t) => if is_float_text(t) {
            Ok(t)
        } else {
            Err(SnapshotFault::BadNumber(key))
        },
    }
}

/// The room's id, read as an index.
pub open spec fn snap_id_field(obj: Seq<u8>) -> Result<IndexValue, SnapshotFault> {
    match snap_text_field(obj, lit("id")) {
        Err(f) => Err(f),
        Ok(t) => Ok(index_value(t)),
    }
}

/// The weight texts of a room object: the pieces between commas, trimmed,
/// from after the first `"jepa_weights":[` up to the next `]`; none when the
/// key or the `]` is missing, and none when nothing stands between the
/// brackets.
pub open spec fn weights_of(obj: Seq<u8>) -> Seq<Seq<u8>> {
    match find(obj, lit("\"jepa_weights\":[")) {
        None => Seq::empty(),
        Some(i) => {
            let rest = obj.skip(i + 16);
            let e = first_of(rest, 93, 93);
            if 0 < e < rest.len() {
                split_at_byte(rest.take(e), 44).map_values(|p: Seq<u8>| trim(p))
            } else {
                Seq::empty()
            }
        },
    }
}

/// The pairs read from group contents: those with exactly two comma-separated
/// pieces, trimmed; the others are skipped.
pub open spec fn pairs_from(inners: Seq<Seq<u8>>) -> Seq<(Seq<u8>, Seq<u8>)>
    decreases inners.len(),
{
    if inners.len() == 0 {
        Seq::empty()
    } else {
        let v = pairs_from(inners.drop_last());
        let parts = split_at_byte(inners.last(), 44);
        if parts.len() == 2 {
            v.push((trim(parts[0]), trim(parts[1])))
        } else {
            v
        }
    }
}

/// The readings of a room object: the `[ts,val]` groups of the array after
/// the first `"jepa_readings":[` (an unclosed array reads as empty).
pub open spec fn readings_of(obj: Seq<u8>) -> Seq<(Seq<u8>, Seq<u8>)> {
    match find(obj, lit("\"jepa_readings\":[")) {
        None => Seq::empty(),
        Some(i) => {
            let rest = obj.skip(i + 17);
            let e = match array_end(rest) {
                Some(e) => e,
                None => 0,
            };
            pairs_from(group_contents(rest.take(e), 91, 93))
        },
    }
}

/// The room read from a room object.
pub open spec fn room_snapshot_from(obj: Seq<u8>) -> Result<ParsedRoomView, SnapshotFault> {
    match snap_id_field(obj) {
        Err(f) => Err(f),
        Ok(id) => match snap_text_field(obj, lit("vibe")) {
            Err(f) => Err(f),
            Ok(v) => match snap_text_field(obj, lit("surprise")) {
                Err(f) => Err(f),
                Ok(s) => Ok(
                    ParsedRoomView {
                        id,
                        vibe: v,
                        surprise: s,
                        readings: readings_of(obj),
                        weights: weights_of(obj),
                    },
                ),
            },
        },
    }
}

/// The rooms read from the content of the rooms array, scanning from `pos`:
/// each `{` starts a room object that ends at the `}` closing it; other
/// single-byte characters are skipped.
pub open spec fn rooms_scan(rs: Seq<u8>, pos: int) -> Result<Seq<ParsedRoomView>, SnapshotFault>
    decreases rs.len() - pos,
{
    if pos < 0 || pos >= rs.len() {
        Ok(Seq::empty())
    } else if rs[pos] == 123 {
        match first_close_from(rs.skip(pos), 0, 123, 125, 0) {
            None => Err(SnapshotFault::UnclosedRoomObject),
            Some(oe) => {
                proof {
                    lemma_first_close_from(rs.skip(pos), 0, 123, 125, 0);
                }
                match room_snapshot_from(rs.subrange(pos, pos + oe + 1)) {
                    Err(f) => Err(f),
                    Ok(room) => match rooms_scan(rs, pos + oe + 1) {
                        Err(f) => Err(f),
                        Ok(rest) => Ok(seq![room] + rest),
                    },
                }
            },
        }
    } else if rs[pos] >= 128 {
        Err(SnapshotFault::NonAsciiBetweenRooms)
    } else {
        rooms_scan(rs, pos + 1)
    }
}

pub open spec fn usize_opt(o: Option<nat>) -> Option<usize> {
    match o {
        Some(v) => Some(v as usize),
        None => None,
    }
}

/// The edges read from group contents: those with exactly three
/// comma-separated pieces; endpoints are read as `usize` after trimming.
pub open spec fn triples_from(inners: Seq<Seq<u8>>) -> Seq<(Option<usize>, Option<usize>, Seq<u8>)>
    decreases inners.len(),
{
    if inners.len() == 0 {
        Seq::empty()
    } else {
        let v = triples_from(inners.drop_last());
        let parts = split_at_byte(inners.last(), 44);
        if parts.len() == 3 {
            v.push(
                (
                    usize_opt(parse_unsigned(trim(parts[0]), usize::MAX as nat)),
                    usize_opt(parse_unsigned(trim(parts[1]), usize::MAX as nat)),
                    trim(parts[2]),
                ),
            )
        } else {
            v
        }
    }
}

/// What reading a snapshot from its text gives.
pub open spec fn snapshot_from_json(s: Seq<u8>) -> Result<
    (u64, Seq<ParsedRoomView>, Seq<(Option<usize>, Option<usize>, Seq<u8>)>),
    SnapshotFault,
> {
    match find(s, lit("\"tick\":")) {
        None => Err(SnapshotFault::MissingTick),
        Some(p) => {
            let rest = s.skip(p + 7);
            let e = first_of(rest, 44, 44);
            match parse_unsigned(trim(rest.take(e)), u64::MAX as nat) {
                None => Err(SnapshotFault::BadTick),
                Some(tick) => match find(s, lit("\"rooms\":[")) {
                    None => Err(SnapshotFault::MissingRooms),
                    Some(q) => {
                        let r = s.skip(q + 9);
                        match array_end(r) {
                            None => Err(SnapshotFault::UnclosedRooms),
                            Some(re) => match rooms_scan(r.take(re), 0) {
                                Err(f) => Err(f),
                                Ok(rooms) => match find(s, lit("\"edges\":[")) {
                                    None => Err(SnapshotFault::MissingEdges),
                                    Some(b) => {
                                        let t = s.skip(b + 9);
                                        match array_end(t) {
                                            None => Err(SnapshotFault::UnclosedEdges),
                                            Some(te) => Ok(
                                                (
                                                    tick as u64,
                                                    rooms,
                                                    triples_from(group_contents(t.take(te), 91, 93)),
                                                ),
                                            ),
                                        }
                                    },
                                },
                            },
                        }
                    },
                }
            }
        },
    }
}

/// The value text of `key` in a room object, a number's text that the caller
/// reads as `f64`.
pub fn get_json_num_text<'a>(obj: &'a [u8], key: &[u8]) -> (r: Result<&'a [u8], SnapshotError>)
    ensures
        match (r, snap_text_field(obj@, key@)) {
            (Ok(t), Ok(u)) => t@ == u,
            (Err(e), Err(f)) => e@ == f,
            _ => false,
        },
{
    match json_value_text(obj, key) {
        None => Err(SnapshotError::MissingKey(slice_to_vec(key))),
        Some(t) => if check_float_text(t) {
            Ok(t)
        } else {
            Err(SnapshotError::BadNumber(slice_to_vec(key)))
        },
    }
}

/// Finds the `}` that closes the object `s` starts with.
pub fn find_obj_end(s: &[u8]) -> (r: Option<usize>)
    ensures
        r matches Some(i) ==> first_close_from(s@, 0, 123, 125, 0) == Some(i as int),
        r is None ==> first_close_from(s@, 0, 123, 125, 0) is None,
{
    find_closing(s, 123, 125, 0)
}

fn trimmed_vec(p: &[u8]) -> (r: Vec<u8>)
    ensures
        r@ == trim(p@),
{
    slice_to_vec(trim_bytes(p))
}

fn weights_exec(obj: &[u8]) -> (r: Vec<Vec<u8>>)
    ensures
        texts_v(r@) == weights_of(obj@),
{
    proof {
        reveal_strlit("\"jepa_weights\":[");
    }
    let _n = obj.len();
    let key = lit_bytes("\"jepa_weights\":[");
    let mut out: Vec<Vec<u8>> = Vec::new();
    match find_bytes(obj, key) {
        None => {
            assert(texts_v(out@) =~= Seq::<Seq<u8>>::empty());
            out
        },
        Some(i) => {
            proof {
                lemma_find_from_found(obj@, key@, 0);
            }
            let rest = slice_subrange(obj, i + 16, obj.len());
            assert(rest@ =~= obj@.skip(i + 16));
            let e = first_of_exec(rest, 93, 93);
            if 0 < e && e < rest.len() {
                let body = slice_subrange(rest, 0, e);
                assert(body@ =~= rest@.take(e as int));
                let parts = split_bytes(body, 44);
                let ghost want = split_at_byte(body@, 44).map_values(|p: Seq<u8>| trim(p));
                let mut k: usize = 0;
                while k < parts.len()
                    invariant
                        k <= parts@.len(),
                        slices_view(parts@) == split_at_byte(body@, 44),
                        want == split_at_byte(body@, 44).map_values(|p: Seq<u8>| trim(p)),
                        texts_v(out@) == want.take(k as int),
                    decreases parts@.len() - k,
                {
                    let ghost before = out@;
                    let v = trimmed_vec(parts[k]);
                    out.push(v);
                    assert(slices_view(parts@)[k as int] == parts@[k as int]@);
                    assert(want[k as int] == trim(split_at_byte(body@, 44)[k as int]));
                    assert(texts_v(out@) =~= texts_v(before).push(v@));
                    assert(want.take(k + 1) =~= want.take(k as int).push(want[k as int]));
                    k = k + 1;
                    assert(texts_v(out@) =~= want.take(k as int));
                }
                assert(want.take(k as int) =~= want);
                out
            } else {
                assert(texts_v(out@) =~= Seq::<Seq<u8>>::empty());
                out
            }
        },
    }
}

fn pairs_exec(inners: &Vec<&[u8]>) -> (r: Vec<ReadingText>)
    ensures
        readings_v(r@) == pairs_from(slices_view(inners@)),
{
    let ghost all = slices_view(inners@);
    let mut out: Vec<ReadingText> = Vec::new();
    let mut k: usize = 0;
    assert(all.take(0) =~= Seq::<Seq<u8>>::empty());
    assert(readings_v(out@) =~= Seq::<(Seq<u8>, Seq<u8>)>::empty());
    while k < inners.len()
        invariant
            k <= inners@.len(),
            all == slices_view(inners@),
            readings_v(out@) == pairs_from(all.take(k as int)),
        decreases inners@.len() - k,
    {
        let parts = split_bytes(inners[k], 44);
        let ghost t = all.take(k + 1);
        assert(t.drop_last() =~= all.take(k as int));
        assert(t.last() == inners@[k as int]@);
        if parts.len() == 2 {
            let ghost before = out@;
            let ts = trimmed_vec(parts[0]);
            let val = trimmed_vec(parts[1]);
            out.push(ReadingText { timestamp: ts, value: val });
            assert(readings_v(out@) =~= readings_v(before).push((ts@, val@)));
        }
        k = k + 1;
    }
    assert(all.take(k as int) =~= all);
    out
}

fn readings_exec(obj: &[u8]) -> (r: Vec<ReadingText>)
    ensures
        readings_v(r@) == readings_of(obj@),
{
    proof {
        reveal_strlit("\"jepa_readings\":[");
    }
    let _n = obj.len();
    let key = lit_bytes("\"jepa_readings\":[");
    match find_bytes(obj, key) {
        None => {
            let out: Vec<ReadingText> = Vec::new();
            assert(readings_v(out@) =~= Seq::<(Seq<u8>, Seq<u8>)>::empty());
            out
        },
        Some(i) => {
            proof {
                lemma_find_from_found(obj@, key@, 0);
            }
            let rest = slice_subrange(obj, i + 17, obj.len());
            assert(rest@ =~= obj@.skip(i + 17));
            let e = match find_array_end(rest) {
                Some(e) => e,
                None => 0,
            };
            proof {
                lemma_first_close_from(rest@, 0, 91, 93, 1);
            }
            let body = slice_subrange(rest, 0, e);
            assert(body@ =~= rest@.take(e as int));
            let inners = split_group_contents(body, 91, 93);
            pairs_exec(&inners)
        },
    }
}

/// Reads a room object of a snapshot's text.
pub fn parse_room_snapshot(obj: &[u8]) -> (r: Result<ParsedRoomText, SnapshotError>)
    ensures
        match (r, room_snapshot_from(obj@)) {
            (Ok(t), Ok(u)) => t@ == u,
            (Err(e), Err(f)) => e@ == f,
            _ => false,
        },
{
    proof {
        reveal_strlit("id");
        reveal_strlit("vibe");
        reveal_strlit("surprise");
    }
    let id = match get_json_num_text(obj, lit_bytes("id")) {
        Err(e) => return Err(e),
        Ok(t) => read_index(t),
    };
    let vibe = match get_json_num_text(obj, lit_bytes("vibe")) {
        Err(e) => return Err(e),
        Ok(v) => slice_to_vec(v),
    };
    let surprise = match get_json_num_text(obj, lit_bytes("surprise")) {
        Err(e) => return Err(e),
        Ok(v) => slice_to_vec(v),
    };
    let jepa_weights = weights_exec(obj);
    let jepa_readings = readings_exec(obj);
    Ok(ParsedRoomText { id, vibe, surprise, jepa_readings, jepa_weights })
}

fn rooms_exec(rs: &[u8]) -> (r: Result<Vec<ParsedRoomText>, SnapshotError>)
    ensures
        match (r, rooms_scan(rs@, 0)) {
            (Ok(t), Ok(u)) => parsed_rooms_v(t@) == u,
            (Err(e), Err(f)) => e@ == f,
            _ => false,
        },
{
    let mut rooms: Vec<ParsedRoomText> = Vec::new();
    let mut pos: usize = 0;
    let n = rs.len();
    assert(parsed_rooms_v(rooms@) =~= Seq::<ParsedRoomView>::empty());
    while pos < n
        invariant
            n == rs@.len(),
            pos <= n,
            match rooms_scan(rs@, pos as int) {
                Ok(rest) => rooms_scan(rs@, 0) == Ok::<_, SnapshotFault>(parsed_rooms_v(rooms@) + rest),
                Err(f) => rooms_scan(rs@, 0) == Err::<Seq<ParsedRoomView>, _>(f),
            },
        decreases n - pos,
    {
        if rs[pos] == 123 {
            let tail = slice_subrange(rs, pos, n);
            assert(tail@ =~= rs@.skip(pos as int));
            match find_obj_end(tail) {
                None => return Err(SnapshotError::UnclosedRoomObject),
                Some(oe) => {
                    proof {
                        lemma_first_close_from(tail@, 0, 123, 125, 0);
                    }
                    let obj = slice_subrange(rs, pos, pos + oe + 1);
                    match parse_room_snapshot(obj) {
                        Err(e) => return Err(e),
                        Ok(room) => {
                            let ghost before = rooms@;
                            rooms.push(room);
                            assert(parsed_rooms_v(rooms@) =~= parsed_rooms_v(before).push(room@));
                            proof {
                                match rooms_scan(rs@, pos + oe + 1) {
                                    Ok(rest) => {
                                        assert(parsed_rooms_v(before) + (seq![room@] + rest)
                                            =~= parsed_rooms_v(rooms@) + rest);
                                    },
                                    Err(f) => {},
                                }
                            }
                            pos = pos + oe + 1;
                        },
                    }
                },
            }
        } else if rs[pos] >= 128 {
            return Err(SnapshotError::NonAsciiBetweenRooms);
        } else {
            pos = pos + 1;
        }
    }
    proof {
        assert(parsed_rooms_v(rooms@) + Seq::<ParsedRoomView>::empty() =~= parsed_rooms_v(rooms@));
    }
    Ok(rooms)
}

fn triples_exec(inners: &Vec<&[u8]>) -> (r: Vec<ParsedEdgeText>)
    ensures
        parsed_edges_v(r@) == triples_from(slices_view(inners@)),
{
    let ghost all = slices_view(inners@);
    let mut out: Vec<ParsedEdgeText> = Vec::new();
    let mut k: usize = 0;
    assert(all.take(0) =~= Seq::<Seq<u8>>::empty());
    assert(parsed_edges_v(out@) =~= Seq::<(Option<usize>, Option<usize>, Seq<u8>)>::empty());
    while k < inners.len()
        invariant
            k <= inners@.len(),
            all == slices_view(inners@),
            parsed_edges_v(out@) == triples_from(all.take(k as int)),
        decreases inners@.len() - k,
    {
        let parts = split_bytes(inners[k], 44);
        let ghost t = all.take(k + 1);
        assert(t.drop_last() =~= all.take(k as int));
        assert(t.last() == inners@[k as int]@);
        if parts.len() == 3 {
            let ghost before = out@;
            let from = match parse_unsigned_bounded(trim_bytes(parts[0]), usize::MAX as u64) {
                Some(v) => Some(v as usize),
                None => None,
            };
            let to = match parse_unsigned_bounded(trim_bytes(parts[1]), usize::MAX as u64) {
                Some(v) => Some(v as usize),
                None => None,
            };
            let weight = trimmed_vec(parts[2]);
            out.push(ParsedEdgeText { from, to, weight });
            assert(parsed_edges_v(out@) =~= parsed_edges_v(before).push((from, to, weight@)));
        }
        k = k + 1;
    }
    assert(all.take(k as int) =~= all);
    out
}

/// Reads a snapshot from its text.
pub fn parse_snapshot(s: &[u8]) -> (r: Result<ParsedSnapshotText, SnapshotError>)
    ensures
        match (r, snapshot_from_json(s@)) {
            (Ok(t), Ok((tick, rooms, edges))) => t.tick == tick && parsed_rooms_v(t.rooms@)
                == rooms && parsed_edges_v(t.edges@) == edges,
            (Err(e), Err(f)) => e@ == f,
            _ => false,
        },
{
    proof {
        reveal_strlit("\"tick\":");
        reveal_strlit("\"rooms\":[");
        reveal_strlit("\"edges\":[");
    }
    let _n = s.len();
    let tick_key = lit_bytes("\"tick\":");
    let p = match find_bytes(s, tick_key) {
        None => return Err(SnapshotError::MissingTick),
        Some(p) => p,
    };
    proof {
        lemma_find_from_found(s@, tick_key@, 0);
    }
    let rest = slice_subrange(s, p + 7, s.len());
    assert(rest@ =~= s@.skip(p + 7));
    let e = first_of_exec(rest, 44, 44);
    let tick_text = slice_subrange(rest, 0, e);
    assert(tick_text@ =~= rest@.take(e as int));
    let tick = match parse_unsigned_bounded(trim_bytes(tick_text), u64::MAX) {
        None => return Err(SnapshotError::BadTick),
        Some(t) => t,
    };
    let rooms_key = lit_bytes("\"rooms\":[");
    let q = match find_bytes(s, rooms_key) {
        None => return Err(SnapshotError::MissingRooms),
        Some(q) => q,
    };
    proof {
        lemma_find_from_found(s@, rooms_key@, 0);
    }
    let r = slice_subrange(s, q + 9, s.len());
    assert(r@ =~= s@.skip(q + 9));
    let re = match find_array_end(r) {
        None => return Err(SnapshotError::UnclosedRooms),
        Some(re) => re,
    };
    proof {
        lemma_first_close_from(r@, 0, 91, 93, 1);
    }
    let rooms_str = slice_subrange(r, 0, re);
    assert(rooms_str@ =~= r@.take(re as int));
    let rooms = match rooms_exec(rooms_str) {
        Err(e) => return Err(e),
        Ok(v) => v,
    };
    let edges_key = lit_bytes("\"edges\":[");
    let b = match find_bytes(s, edges_key) {
        None => return Err(SnapshotError::MissingEdges),
        Some(b) => b,
    };
    proof {
        lemma_find_from_found(s@, edges_key@, 0);
    }
    let t = slice_subrange(s, b + 9, s.len());
    assert(t@ =~= s@.skip(b + 9));
    let te = match find_array_end(t) {
        None => return Err(SnapshotError::UnclosedEdges),
        Some(te) => te,
    };
    proof {
        lemma_first_close_from(t@, 0, 91, 93, 1);
    }
    let edges_str = slice_subrange(t, 0, te);
    assert(edges_str@ =~= t@.take(te as int));
    let inners = split_group_contents(edges_str, 91, 93);
    let edges = triples_exec(&inners);
    Ok(ParsedSnapshotText { tick, rooms, edges })
}

} // verus!
