//! The JSON format of the cell graph:
//!
//! ```text
//! {"rooms":[{"id":0,"vibe":V,"surprise":S},...],"edges":[{"from":F,"to":T,"weight":W},...]}
//! ```
//!
//! Numbers that are `f64` in the graph travel as their decimal text (`V`, `S`,
//! `W`): the caller writes them with `f64`'s `Display` and reads them back with
//! `str::parse::<f64>`; reading refuses a text that this parse refuses. Ids
//! and endpoints are written and read here: an id must be a number's text,
//! and an endpoint is read as an index (`IndexText`).
use vstd::prelude::*;
use vstd::slice::{slice_subrange, slice_to_vec};

use crate::float_text::{check_float_text, index_value, is_float_text, read_index, IndexText, IndexValue};
use crate::text::{
    append_bytes, decimal, find, find_bytes, find_closing, first_close_from, first_of,
    first_of_exec, lemma_find_from_found, lemma_first_close_from, lit, lit_bytes, push_decimal,
    push_lit, slices_view, trim, trim_bytes, group_scan, group_step, join_commas,
};

verus! {

/// A room of the JSON document: its id and the decimal texts of its vibe and surprise.
#[derive(Debug, Clone)]
pub struct RoomText {
    pub id: usize,
    pub vibe: Vec<u8>,
    pub surprise: Vec<u8>,
}

/// An edge of the JSON document: its endpoints and the decimal text of its weight.
#[derive(Debug, Clone)]
pub struct EdgeText {
    pub from: usize,
    pub to: usize,
    pub weight: Vec<u8>,
}

/// A graph as the JSON format carries it.
#[derive(Debug, Clone)]
pub struct GraphText {
    pub rooms: Vec<RoomText>,
    pub edges: Vec<EdgeText>,
}

impl View for RoomText {
    type V = (usize, Seq<u8>, Seq<u8>);

    open spec fn view(&self) -> (usize, Seq<u8>, Seq<u8>) {
        (self.id, self.vibe@, self.surprise@)
    }
}

impl View for EdgeText {
    type V = (usize, usize, Seq<u8>);

    open spec fn view(&self) -> (usize, usize, Seq<u8>) {
        (self.from, self.to, self.weight@)
    }
}

/// An edge as read from the JSON document: its endpoints as their texts give
/// them, and the decimal text of its weight.
#[derive(Debug, Clone)]
pub struct ParsedGraphEdge {
    pub from: IndexText,
    pub to: IndexText,
    pub weight: Vec<u8>,
}

/// A graph as read from the JSON document.
#[derive(Debug, Clone)]
pub struct ParsedGraphText {
    pub rooms: Vec<RoomText>,
    pub edges: Vec<ParsedGraphEdge>,
}

impl View for ParsedGraphEdge {
    type V = (IndexValue, IndexValue, Seq<u8>);

    open spec fn view(&self) -> (IndexValue, IndexValue, Seq<u8>) {
        (self.from@, self.to@, self.weight@)
    }
}

pub open spec fn parsed_edges_v(edges: Seq<ParsedGraphEdge>) -> Seq<(IndexValue, IndexValue, Seq<u8>)> {
    edges.map_values(|e: ParsedGraphEdge| e@)
}

pub open spec fn rooms_v(rooms: Seq<RoomText>) -> Seq<(usize, Seq<u8>, Seq<u8>)> {
    rooms.map_values(|r: RoomText| r@)
}

pub open spec fn edges_v(edges: Seq<EdgeText>) -> Seq<(usize, usize, Seq<u8>)> {
    edges.map_values(|e: EdgeText| e@)
}

/// Why a text is not a graph in the JSON format.
#[derive(Debug, Clone)]
pub enum JsonError {
    MissingRoomsArray,
    UnclosedRoomsArray,
    MissingEdgesArray,
    UnclosedEdgesArray,
    /// An object lacks this key.
    MissingKey(Vec<u8>),
    /// The value of this key is not a number.
    InvalidNumber(Vec<u8>),
}

/// The content of a `JsonError`.
pub enum JsonFault {
    MissingRoomsArray,
    UnclosedRoomsArray,
    MissingEdgesArray,
    UnclosedEdgesArray,
    MissingKey(Seq<u8>),
    InvalidNumber(Seq<u8>),
}

impl View for JsonError {
    type V = JsonFault;

    open spec fn view(&self) -> JsonFault {
        match self {
            JsonError::MissingRoomsArray => JsonFault::MissingRoomsArray,
            JsonError::UnclosedRoomsArray => JsonFault::UnclosedRoomsArray,
            JsonError::MissingEdgesArray => JsonFault::MissingEdgesArray,
            JsonError::UnclosedEdgesArray => JsonFault::UnclosedEdgesArray,
            JsonError::MissingKey(k) => JsonFault::MissingKey(k@),
            JsonError::InvalidNumber(k) => JsonFault::InvalidNumber(k@),
        }
    }
}

// ───────────── writing ─────────────

/// `{"id":I,"vibe":V,"surprise":S}`
pub open spec fn room_json(r: (usize, Seq<u8>, Seq<u8>)) -> Seq<u8> {
    lit("{\"id\":") + decimal(r.0 as nat) + lit(",\"vibe\":") + r.1 + lit(",\"surprise\":") + r.2
        + lit("}")
}

/// `{"from":F,"to":T,"weight":W}`
pub open spec fn edge_json(e: (usize, usize, Seq<u8>)) -> Seq<u8> {
    lit("{\"from\":") + decimal(e.0 as nat) + lit(",\"to\":") + decimal(e.1 as nat) + lit(
        ",\"weight\":",
    ) + e.2 + lit("}")
}

/// The JSON text of a graph.
pub open spec fn graph_json(
    rooms: Seq<(usize, Seq<u8>, Seq<u8>)>,
    edges: Seq<(usize, usize, Seq<u8>)>,
) -> Seq<u8> {
    lit("{\"rooms\":[") + join_commas(rooms.map_values(|r: (usize, Seq<u8>, Seq<u8>)| room_json(r)))
        + lit("],\"edges\":[") + join_commas(
        edges.map_values(|e: (usize, usize, Seq<u8>)| edge_json(e)),
    ) + lit("]}")
}

fn push_room_json(out: &mut Vec<u8>, r: &RoomText)
    ensures
        final(out)@ == old(out)@ + room_json(r@),
{
    proof {
        reveal_strlit("{\"id\":");
        reveal_strlit(",\"vibe\":");
        reveal_strlit(",\"surprise\":");
        reveal_strlit("}");
    }
    push_lit(out, "{\"id\":");
    push_decimal(out, r.id as u64);
    push_lit(out, ",\"vibe\":");
    append_bytes(out, r.vibe.as_slice());
    push_lit(out, ",\"surprise\":");
    append_bytes(out, r.surprise.as_slice());
    push_lit(out, "}");
    assert(final(out)@ =~= old(out)@ + room_json(r@));
}

fn push_edge_json(out: &mut Vec<u8>, e: &EdgeText)
    ensures
        final(out)@ == old(out)@ + edge_json(e@),
{
    proof {
        reveal_strlit("{\"from\":");
        reveal_strlit(",\"to\":");
        reveal_strlit(",\"weight\":");
        reveal_strlit("}");
    }
    push_lit(out, "{\"from\":");
    push_decimal(out, e.from as u64);
    push_lit(out, ",\"to\":");
    push_decimal(out, e.to as u64);
    push_lit(out, ",\"weight\":");
    append_bytes(out, e.weight.as_slice());
    push_lit(out, "}");
    assert(final(out)@ =~= old(out)@ + edge_json(e@));
}

/// Writes a graph in the JSON format.
pub fn render_graph_json(g: &GraphText) -> (out: Vec<u8>)
    ensures
        out@ == graph_json(rooms_v(g.rooms@), edges_v(g.edges@)),
{
    let ghost room_items = rooms_v(g.rooms@).map_values(
        |r: (usize, Seq<u8>, Seq<u8>)| room_json(r),
    );
    let ghost edge_items = edges_v(g.edges@).map_values(
        |e: (usize, usize, Seq<u8>)| edge_json(e),
    );
    let mut out: Vec<u8> = Vec::new();
    proof {
        reveal_strlit("{\"rooms\":[");
        reveal_strlit("],\"edges\":[");
        reveal_strlit("]}");
    }
    push_lit(&mut out, "{\"rooms\":[");
    let ghost start = out@;
    let mut i: usize = 0;
    while i < g.rooms.len()
        invariant
            i <= g.rooms@.len(),
            room_items == rooms_v(g.rooms@).map_values(
                |r: (usize, Seq<u8>, Seq<u8>)| room_json(r),
            ),
            out@ == start + join_commas(room_items.take(i as int)),
        decreases g.rooms@.len() - i,
    {
        if i > 0 {
            out.push(44);
        }
        push_room_json(&mut out, &g.rooms[i]);
        i = i + 1;
        proof {
            let t = room_items.take(i as int);
            assert(t.drop_last() =~= room_items.take(i - 1));
            assert(t.last() == room_json(g.rooms@[i - 1]@));
            if i == 1 {
                assert(room_items.take(0) =~= Seq::<Seq<u8>>::empty());
            }
            assert(out@ =~= start + join_commas(t));
        }
    }
    assert(room_items.take(i as int) =~= room_items);
    push_lit(&mut out, "],\"edges\":[");
    let ghost mid = out@;
    let mut j: usize = 0;
    while j < g.edges.len()
        invariant
            j <= g.edges@.len(),
            edge_items == edges_v(g.edges@).map_values(
                |e: (usize, usize, Seq<u8>)| edge_json(e),
            ),
            out@ == mid + join_commas(edge_items.take(j as int)),
        decreases g.edges@.len() - j,
    {
        if j > 0 {
            out.push(44);
        }
        push_edge_json(&mut out, &g.edges[j]);
        j = j + 1;
        proof {
            let t = edge_items.take(j as int);
            assert(t.drop_last() =~= edge_items.take(j - 1));
            assert(t.last() == edge_json(g.edges@[j - 1]@));
            if j == 1 {
                assert(edge_items.take(0) =~= Seq::<Seq<u8>>::empty());
            }
            assert(out@ =~= mid + join_commas(t));
        }
    }
    assert(edge_items.take(j as int) =~= edge_items);
    push_lit(&mut out, "]}");
    assert(out@ =~= graph_json(rooms_v(g.rooms@), edges_v(g.edges@)));
    out
}

// ───────────── reading ─────────────

/// Where the array that starts just before `s` ends: the first `]` that
/// closes it, counting nested `[`/`]`.
pub open spec fn array_end(s: Seq<u8>) -> Option<int> {
    first_close_from(s, 0, 91, 93, 1)
}

/// Finds the `]` that closes an array whose content starts `s`.
pub fn find_array_end(s: &[u8]) -> (r: Option<usize>)
    ensures
        r matches Some(i) ==> array_end(s@) == Some(i as int),
        r is None ==> array_end(s@) is None,
{
    find_closing(s, 91, 93, 1)
}

/// The top-level `{...}` objects of `s`, in order: each spans from a `{` met
/// at depth zero to the `}` that brings the depth back to zero.
pub open spec fn objects(s: Seq<u8>) -> Seq<Seq<u8>> {
    group_scan(s, s.len() as int, 123, 125).2.map_values(|p: (int, int)| s.subrange(p.0, p.1))
}

/// Splits `s` into its top-level `{...}` objects.
pub fn split_objects(s: &[u8]) -> (r: Vec<&[u8]>)
    ensures
        slices_view(r@) == objects(s@),
{
    let mut r: Vec<&[u8]> = Vec::new();
    let mut depth: i128 = 0;
    let mut start: Option<usize> = None;
    let mut i: usize = 0;
    while i < s.len()
        invariant
            i <= s@.len(),
            depth == group_scan(s@, i as int, 123, 125).0,
            -(i as int) <= depth <= i,
            match start {
                Some(x) => group_scan(s@, i as int, 123, 125).1 == Some(x as int) && x < i,
                None => group_scan(s@, i as int, 123, 125).1 is None,
            },
            slices_view(r@) == group_scan(s@, i as int, 123, 125).2.map_values(
                |p: (int, int)| s@.subrange(p.0, p.1),
            ),
            forall|k: int|
                0 <= k < group_scan(s@, i as int, 123, 125).2.len() ==> 0 <= (
                #[trigger] group_scan(s@, i as int, 123, 125).2[k]).0 <= group_scan(s@, i as int, 123, 125).2[k].1 <= i,
        decreases s@.len() - i,
    {
        let c = s[i];
        let ghost st = group_scan(s@, i as int, 123, 125);
        assert(group_scan(s@, i + 1, 123, 125) == group_step(st, c, i as int, 123, 125));
        if c == 123 {
            if depth == 0 {
                start = Some(i);
            }
            depth = depth + 1;
        } else if c == 125 {
            depth = depth - 1;
            if depth == 0 {
                match start {
                    Some(x) => {
                        let ghost before = r@;
                        let piece = slice_subrange(s, x, i + 1);
                        r.push(piece);
                        assert(slices_view(r@) =~= slices_view(before).push(piece@));
                        assert(group_scan(s@, i + 1, 123, 125).2 == st.2.push((x as int, i + 1)));
                        assert(slices_view(r@) =~= group_scan(s@, i + 1, 123, 125).2.map_values(
                            |p: (int, int)| s@.subrange(p.0, p.1),
                        ));
                    },
                    None => {},
                }
            }
        }
        i = i + 1;
    }
    r
}

/// `"key":`
pub open spec fn key_needle(key: Seq<u8>) -> Seq<u8> {
    seq![34u8] + key + seq![34u8, 58u8]
}

/// The text of the value of `key` in an object: what follows the first
/// `"key":` up to the next `,` or `}` (or the end), trimmed.
pub open spec fn value_text(obj: Seq<u8>, key: Seq<u8>) -> Option<Seq<u8>> {
    match find(obj, key_needle(key)) {
        None => None,
        Some(p) => {
            let rest = obj.skip(p + key_needle(key).len());
            Some(trim(rest.take(first_of(rest, 44, 125))))
        },
    }
}

/// The value text of `key`, which must be a number's text: the fault of a
/// missing key, or of a text that `str::parse::<f64>` refuses.
pub open spec fn text_field(obj: Seq<u8>, key: Seq<u8>) -> Result<Seq<u8>, JsonFault> {
    match value_text(obj, key) {
        None => Err(JsonFault::MissingKey(key)),
        Some(t) => if is_float_text(t) {
            Ok(t)
        } else {
            Err(JsonFault::InvalidNumber(key))
        },
    }
}

/// The value of `key` read as an index.
pub open spec fn index_field(obj: Seq<u8>, key: Seq<u8>) -> Result<IndexValue, JsonFault> {
    match text_field(obj, key) {
        Err(f) => Err(f),
        Ok(t) => Ok(index_value(t)),
    }
}

fn key_needle_exec(key: &[u8]) -> (r: Vec<u8>)
    ensures
        r@ == key_needle(key@),
{
    let mut r: Vec<u8> = Vec::new();
    r.push(34);
    append_bytes(&mut r, key);
    r.push(34);
    r.push(58);
    assert(r@ =~= key_needle(key@));
    r
}

/// The value text of `key` in `obj`, if the key occurs.
pub fn json_value_text<'a>(obj: &'a [u8], key: &[u8]) -> (r: Option<&'a [u8]>)
    ensures
        r matches Some(t) ==> value_text(obj@, key@) == Some(t@),
        r is None ==> value_text(obj@, key@) is None,
{
    let _n = obj.len();
    let needle = key_needle_exec(key);
    match find_bytes(obj, needle.as_slice()) {
        None => None,
        Some(p) => {
            proof {
                lemma_find_from_found(obj@, needle@, 0);
            }
            let rest = slice_subrange(obj, p + needle.len(), obj.len());
            let end = first_of_exec(rest, 44, 125);
            let t = trim_bytes(slice_subrange(rest, 0, end));
            assert(rest@ =~= obj@.skip(p + needle@.len()));
            assert(rest@.subrange(0, end as int) =~= rest@.take(end as int));
            Some(t)
        },
    }
}

/// The value text of `key`, a number's text that the caller reads as `f64`.
pub fn json_get_text<'a>(obj: &'a [u8], key: &[u8]) -> (r: Result<&'a [u8], JsonError>)
    ensures
        match (r, text_field(obj@, key@)) {
            (Ok(t), Ok(u)) => t@ == u,
            (Err(e), Err(f)) => e@ == f,
            _ => false,
        },
{
    match json_value_text(obj, key) {
        None => Err(JsonError::MissingKey(slice_to_vec(key))),
        Some(t) => if check_float_text(t) {
            Ok(t)
        } else {
            Err(JsonError::InvalidNumber(slice_to_vec(key)))
        },
    }
}

/// The value of `key` read as an index: the integer its number's text
/// spells, when it is an unsigned integer up to `index_limit()`, else the text.
pub fn json_get_usize(obj: &[u8], key: &[u8]) -> (r: Result<IndexText, JsonError>)
    ensures
        match (r, index_field(obj@, key@)) {
            (Ok(v), Ok(u)) => v@ == u,
            (Err(e), Err(f)) => e@ == f,
            _ => false,
        },
{
    match json_get_text(obj, key) {
        Err(e) => Err(e),
        Ok(t) => Ok(read_index(t)),
    }
}

/// The room read from object `obj` at position `index`: its id must be a
/// number, but the room's id is its position.
pub open spec fn room_from_object(obj: Seq<u8>, index: int) -> Result<(usize, Seq<u8>, Seq<u8>), JsonFault> {
    match text_field(obj, lit("id")) {
        Err(f) => Err(f),
        Ok(_) => match text_field(obj, lit("vibe")) {
            Err(f) => Err(f),
            Ok(v) => match text_field(obj, lit("surprise")) {
                Err(f) => Err(f),
                Ok(s) => Ok((index as usize, v, s)),
            },
        },
    }
}

/// The edge read from object `obj`.
pub open spec fn edge_from_object(obj: Seq<u8>) -> Result<(IndexValue, IndexValue, Seq<u8>), JsonFault> {
    match index_field(obj, lit("from")) {
        Err(f) => Err(f),
        Ok(from) => match index_field(obj, lit("to")) {
            Err(f) => Err(f),
            Ok(to) => match text_field(obj, lit("weight")) {
                Err(f) => Err(f),
                Ok(w) => Ok((from, to, w)),
            },
        },
    }
}

/// The rooms read from these objects, or the fault of the first that fails.
pub open spec fn rooms_from_objects(objs: Seq<Seq<u8>>) -> Result<Seq<(usize, Seq<u8>, Seq<u8>)>, JsonFault>
    decreases objs.len(),
{
    if objs.len() == 0 {
        Ok(Seq::empty())
    } else {
        match rooms_from_objects(objs.drop_last()) {
            Err(f) => Err(f),
            Ok(v) => match room_from_object(objs.last(), objs.len() - 1) {
                Err(f) => Err(f),
                Ok(r) => Ok(v.push(r)),
            },
        }
    }
}

/// The edges read from these objects, or the fault of the first that fails.
pub open spec fn edges_from_objects(objs: Seq<Seq<u8>>) -> Result<Seq<(IndexValue, IndexValue, Seq<u8>)>, JsonFault>
    decreases objs.len(),
{
    if objs.len() == 0 {
        Ok(Seq::empty())
    } else {
        match edges_from_objects(objs.drop_last()) {
            Err(f) => Err(f),
            Ok(v) => match edge_from_object(objs.last()) {
                Err(f) => Err(f),
                Ok(e) => Ok(v.push(e)),
            },
        }
    }
}

/// What reading a graph from the JSON text `s` gives. The rooms array is the
/// one after the first `"rooms":[`, the edges array the one after the first
/// `"edges":[` anywhere in `s`.
pub open spec fn graph_from_json(s: Seq<u8>) -> Result<
    (Seq<(usize, Seq<u8>, Seq<u8>)>, Seq<(IndexValue, IndexValue, Seq<u8>)>),
    JsonFault,
> {
    match find(s, lit("\"rooms\":[")) {
        None => Err(JsonFault::MissingRoomsArray),
        Some(p) => {
            let a = p + 9;
            match array_end(s.skip(a)) {
                None => Err(JsonFault::UnclosedRoomsArray),
                Some(e) => match rooms_from_objects(objects(s.subrange(a, a + e))) {
                    Err(f) => Err(f),
                    Ok(rooms) => match find(s, lit("\"edges\":[")) {
                        None => Err(JsonFault::MissingEdgesArray),
                        Some(q) => {
                            let b = q + 9;
                            match array_end(s.skip(b)) {
                                None => Err(JsonFault::UnclosedEdgesArray),
                                Some(f) => match edges_from_objects(
                                    objects(s.subrange(b, b + f)),
                                ) {
                                    Err(x) => Err(x),
                                    Ok(edges) => Ok((rooms, edges)),
                                },
                            }
                        },
                    },
                },
            }
        },
    }
}

fn room_from_object_exec(obj: &[u8], index: usize) -> (r: Result<RoomText, JsonError>)
    ensures
        match (r, room_from_object(obj@, index as int)) {
            (Ok(t), Ok(u)) => t@ == u,
            (Err(e), Err(f)) => e@ == f,
            _ => false,
        },
{
    proof {
        reveal_strlit("id");
        reveal_strlit("vibe");
        reveal_strlit("surprise");
    }
    match json_get_text(obj, lit_bytes("id")) {
        Err(e) => Err(e),
        Ok(_id) => match json_get_text(obj, lit_bytes("vibe")) {
            Err(e) => Err(e),
            Ok(v) => match json_get_text(obj, lit_bytes("surprise")) {
                Err(e) => Err(e),
                Ok(s) => Ok(RoomText { id: index, vibe: slice_to_vec(v), surprise: slice_to_vec(s) }),
            },
        },
    }
}

fn edge_from_object_exec(obj: &[u8]) -> (r: Result<ParsedGraphEdge, JsonError>)
    ensures
        match (r, edge_from_object(obj@)) {
            (Ok(t), Ok(u)) => t@ == u,
            (Err(e), Err(f)) => e@ == f,
            _ => false,
        },
{
    proof {
        reveal_strlit("from");
        reveal_strlit("to");
        reveal_strlit("weight");
    }
    match json_get_usize(obj, lit_bytes("from")) {
        Err(e) => Err(e),
        Ok(from) => match json_get_usize(obj, lit_bytes("to")) {
            Err(e) => Err(e),
            Ok(to) => match json_get_text(obj, lit_bytes("weight")) {
                Err(e) => Err(e),
                Ok(w) => Ok(ParsedGraphEdge { from, to, weight: slice_to_vec(w) }),
            },
        },
    }
}

fn rooms_from_objects_exec(objs: &Vec<&[u8]>) -> (r: Result<Vec<RoomText>, JsonError>)
    ensures
        match (r, rooms_from_objects(slices_view(objs@))) {
            (Ok(t), Ok(u)) => rooms_v(t@) == u,
            (Err(e), Err(f)) => e@ == f,
            _ => false,
        },
{
    let ghost all = slices_view(objs@);
    let mut rooms: Vec<RoomText> = Vec::new();
    let mut k: usize = 0;
    assert(all.take(0) =~= Seq::<Seq<u8>>::empty());
    assert(rooms_v(rooms@) =~= Seq::empty());
    while k < objs.len()
        invariant
            k <= objs@.len(),
            all == slices_view(objs@),
            rooms_from_objects(all.take(k as int)) == Ok::<_, JsonFault>(rooms_v(rooms@)),
        decreases objs@.len() - k,
    {
        let ghost t = all.take(k + 1);
        assert(t.drop_last() =~= all.take(k as int));
        assert(t.last() == objs@[k as int]@);
        match room_from_object_exec(objs[k], k) {
            Err(e) => {
                proof {
                    lemma_rooms_err_sticks(all, k + 1);
                }
                return Err(e);
            },
            Ok(room) => {
                let ghost before = rooms@;
                rooms.push(room);
                assert(rooms_v(rooms@) =~= rooms_v(before).push(room@));
            },
        }
        k = k + 1;
    }
    assert(all.take(k as int) =~= all);
    Ok(rooms)
}

proof fn lemma_rooms_err_sticks(objs: Seq<Seq<u8>>, k: int)
    requires
        0 <= k <= objs.len(),
        rooms_from_objects(objs.take(k)) is Err,
    ensures
        rooms_from_objects(objs) == rooms_from_objects(objs.take(k)),
    decreases objs.len() - k,
{
    if k < objs.len() {
        assert(objs.take(k + 1).drop_last() =~= objs.take(k));
        lemma_rooms_err_sticks(objs, k + 1);
    } else {
        assert(objs.take(k) =~= objs);
    }
}

proof fn lemma_edges_err_sticks(objs: Seq<Seq<u8>>, k: int)
    requires
        0 <= k <= objs.len(),
        edges_from_objects(objs.take(k)) is Err,
    ensures
        edges_from_objects(objs) == edges_from_objects(objs.take(k)),
    decreases objs.len() - k,
{
    if k < objs.len() {
        assert(objs.take(k + 1).drop_last() =~= objs.take(k));
        lemma_edges_err_sticks(objs, k + 1);
    } else {
        assert(objs.take(k) =~= objs);
    }
}

fn edges_from_objects_exec(objs: &Vec<&[u8]>) -> (r: Result<Vec<ParsedGraphEdge>, JsonError>)
    ensures
        match (r, edges_from_objects(slices_view(objs@))) {
            (Ok(t), Ok(u)) => parsed_edges_v(t@) == u,
            (Err(e), Err(f)) => e@ == f,
            _ => false,
        },
{
    let ghost all = slices_view(objs@);
    let mut edges: Vec<ParsedGraphEdge> = Vec::new();
    let mut k: usize = 0;
    assert(all.take(0) =~= Seq::<Seq<u8>>::empty());
    assert(parsed_edges_v(edges@) =~= Seq::empty());
    while k < objs.len()
        invariant
            k <= objs@.len(),
            all == slices_view(objs@),
            edges_from_objects(all.take(k as int)) == Ok::<_, JsonFault>(parsed_edges_v(edges@)),
        decreases objs@.len() - k,
    {
        let ghost t = all.take(k + 1);
        assert(t.drop_last() =~= all.take(k as int));
        assert(t.last() == objs@[k as int]@);
        match edge_from_object_exec(objs[k]) {
            Err(e) => {
                proof {
                    lemma_edges_err_sticks(all, k + 1);
                }
                return Err(e);
            },
            Ok(edge) => {
                let ghost before = edges@;
                edges.push(edge);
                assert(parsed_edges_v(edges@) =~= parsed_edges_v(before).push(edge@));
            },
        }
        k = k + 1;
    }
    assert(all.take(k as int) =~= all);
    Ok(edges)
}

/// Reads a graph from its JSON text; room ids are the rooms' positions.
pub fn parse_json_graph(s: &[u8]) -> (r: Result<ParsedGraphText, JsonError>)
    ensures
        match (r, graph_from_json(s@)) {
            (Ok(g), Ok((rooms, edges))) => rooms_v(g.rooms@) == rooms && parsed_edges_v(g.edges@) == edges,
            (Err(e), Err(f)) => e@ == f,
            _ => false,
        },
{
    proof {
        reveal_strlit("\"rooms\":[");
        reveal_strlit("\"edges\":[");
    }
    let _n = s.len();
    let rooms_key = lit_bytes("\"rooms\":[");
    let p = match find_bytes(s, rooms_key) {
        None => return Err(JsonError::MissingRoomsArray),
        Some(p) => p,
    };
    proof {
        lemma_find_from_found(s@, rooms_key@, 0);
    }
    let a = p + 9;
    let after = slice_subrange(s, a, s.len());
    assert(after@ =~= s@.skip(a as int));
    let e = match find_array_end(after) {
        None => return Err(JsonError::UnclosedRoomsArray),
        Some(e) => e,
    };
    proof {
        lemma_first_close_from(after@, 0, 91, 93, 1);
    }
    let rooms_str = slice_subrange(s, a, a + e);
    let room_objs = split_objects(rooms_str);
    let rooms = match rooms_from_objects_exec(&room_objs) {
        Err(x) => return Err(x),
        Ok(v) => v,
    };
    let edges_key = lit_bytes("\"edges\":[");
    let q = match find_bytes(s, edges_key) {
        None => return Err(JsonError::MissingEdgesArray),
        Some(q) => q,
    };
    proof {
        lemma_find_from_found(s@, edges_key@, 0);
    }
    let b = q + 9;
    let rest = slice_subrange(s, b, s.len());
    assert(rest@ =~= s@.skip(b as int));
    let f = match find_array_end(rest) {
        None => return Err(JsonError::UnclosedEdgesArray),
        Some(f) => f,
    };
    proof {
        lemma_first_close_from(rest@, 0, 91, 93, 1);
    }
    let edges_str = slice_subrange(rest, 0, f);
    assert(edges_str@ =~= s@.subrange(b as int, b + f));
    let edge_objs = split_objects(edges_str);
    let edges = match edges_from_objects_exec(&edge_objs) {
        Err(x) => return Err(x),
        Ok(v) => v,
    };
    Ok(ParsedGraphText { rooms, edges })
}

} // verus!
