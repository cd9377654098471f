//! CSV exports for analysis: rooms, edges and tick history.
//!
//! Each export is a header line followed by one line per record; fields are
//! separated by `,` and every line ends with `\n`. Numbers that are `f64` in
//! the graph appear as the decimal texts the caller provides.
use vstd::prelude::*;

use crate::persistence::json::{rooms_v, edges_v, EdgeText, RoomText};
use crate::text::{
    append_bytes, concat, decimal, lemma_concat_front, lemma_split_first, lemma_split_none,
    lemma_decimal_plain, lit, plain, plain_byte, push_decimal, push_lit, split_at_byte,
};

verus! {

/// One line of the tick history: the tick and the texts of the mean vibe and
/// mean surprise.
#[derive(Debug, Clone)]
pub struct TickSummaryText {
    pub tick: u64,
    pub mean_vibe: Vec<u8>,
    pub mean_surprise: Vec<u8>,
}

impl View for TickSummaryText {
    type V = (u64, Seq<u8>, Seq<u8>);

    open spec fn view(&self) -> (u64, Seq<u8>, Seq<u8>) {
        (self.tick, self.mean_vibe@, self.mean_surprise@)
    }
}

pub open spec fn summaries_v(h: Seq<TickSummaryText>) -> Seq<(u64, Seq<u8>, Seq<u8>)> {
    h.map_values(|t: TickSummaryText| t@)
}

/// `a,b,c`
pub open spec fn csv_fields(a: Seq<u8>, b: Seq<u8>, c: Seq<u8>) -> Seq<u8> {
    a + seq![44u8] + b + seq![44u8] + c
}

/// `a,b,c` followed by a newline.
pub open spec fn csv_line(a: Seq<u8>, b: Seq<u8>, c: Seq<u8>) -> Seq<u8> {
    csv_fields(a, b, c) + seq![10u8]
}

pub open spec fn room_row(r: (usize, Seq<u8>, Seq<u8>)) -> Seq<u8> {
    csv_line(decimal(r.0 as nat), r.1, r.2)
}

pub open spec fn edge_row(e: (usize, usize, Seq<u8>)) -> Seq<u8> {
    csv_line(decimal(e.0 as nat), decimal(e.1 as nat), e.2)
}

pub open spec fn summary_row(t: (u64, Seq<u8>, Seq<u8>)) -> Seq<u8> {
    csv_line(decimal(t.0 as nat), t.1, t.2)
}

/// The rooms export: `id,vibe,surprise`, then one line per room.
pub open spec fn rooms_csv(rooms: Seq<(usize, Seq<u8>, Seq<u8>)>) -> Seq<u8> {
    lit("id,vibe,surprise\n") + concat(rooms.map_values(|r: (usize, Seq<u8>, Seq<u8>)| room_row(r)))
}

/// The edges export: `from,to,weight`, then one line per edge.
pub open spec fn edges_csv(edges: Seq<(usize, usize, Seq<u8>)>) -> Seq<u8> {
    lit("from,to,weight\n") + concat(edges.map_values(|e: (usize, usize, Seq<u8>)| edge_row(e)))
}

/// The tick history export: `tick,mean_vibe,mean_surprise`, then one line per tick.
pub open spec fn tick_history_csv(history: Seq<(u64, Seq<u8>, Seq<u8>)>) -> Seq<u8> {
    lit("tick,mean_vibe,mean_surprise\n") + concat(
        history.map_values(|t: (u64, Seq<u8>, Seq<u8>)| summary_row(t)),
    )
}

fn push_csv_line(out: &mut Vec<u8>, a: &[u8], b: &[u8], c: &[u8])
    ensures
        final(out)@ == old(out)@ + csv_line(a@, b@, c@),
{
    append_bytes(out, a);
    out.push(44);
    append_bytes(out, b);
    out.push(44);
    append_bytes(out, c);
    out.push(10);
    assert(final(out)@ =~= old(out)@ + csv_line(a@, b@, c@));
}

fn decimal_bytes(n: u64) -> (r: Vec<u8>)
    ensures
        r@ == decimal(n as nat),
{
    let mut r: Vec<u8> = Vec::new();
    push_decimal(&mut r, n);
    assert(r@ =~= decimal(n as nat));
    r
}

/// Writes the rooms export.
pub fn render_rooms_csv(rooms: &[RoomText]) -> (out: Vec<u8>)
    ensures
        out@ == rooms_csv(rooms_v(rooms@)),
{
    let ghost rows = rooms_v(rooms@).map_values(|r: (usize, Seq<u8>, Seq<u8>)| room_row(r));
    let mut out: Vec<u8> = Vec::new();
    proof {
        reveal_strlit("id,vibe,surprise\n");
    }
    push_lit(&mut out, "id,vibe,surprise\n");
    let ghost header = out@;
    let mut i: usize = 0;
    while i < rooms.len()
        invariant
            i <= rooms@.len(),
            rows == rooms_v(rooms@).map_values(|r: (usize, Seq<u8>, Seq<u8>)| room_row(r)),
            out@ == header + concat(rows.take(i as int)),
        decreases rooms@.len() - i,
    {
        let r = &rooms[i];
        let id = decimal_bytes(r.id as u64);
        push_csv_line(&mut out, id.as_slice(), r.vibe.as_slice(), r.surprise.as_slice());
        i = i + 1;
        assert(rows.take(i as int).drop_last() =~= rows.take(i - 1));
        assert(out@ =~= header + concat(rows.take(i as int)));
    }
    assert(rows.take(i as int) =~= rows);
    out
}

/// Writes the edges export.
pub fn render_edges_csv(edges: &[EdgeText]) -> (out: Vec<u8>)
    ensures
        out@ == edges_csv(edges_v(edges@)),
{
    let ghost rows = edges_v(edges@).map_values(|e: (usize, usize, Seq<u8>)| edge_row(e));
    let mut out: Vec<u8> = Vec::new();
    proof {
        reveal_strlit("from,to,weight\n");
    }
    push_lit(&mut out, "from,to,weight\n");
    let ghost header = out@;
    let mut i: usize = 0;
    while i < edges.len()
        invariant
            i <= edges@.len(),
            rows == edges_v(edges@).map_values(|e: (usize, usize, Seq<u8>)| edge_row(e)),
            out@ == header + concat(rows.take(i as int)),
        decreases edges@.len() - i,
    {
        let e = &edges[i];
        let from = decimal_bytes(e.from as u64);
        let to = decimal_bytes(e.to as u64);
        push_csv_line(&mut out, from.as_slice(), to.as_slice(), e.weight.as_slice());
        i = i + 1;
        assert(rows.take(i as int).drop_last() =~= rows.take(i - 1));
        assert(out@ =~= header + concat(rows.take(i as int)));
    }
    assert(rows.take(i as int) =~= rows);
    out
}

/// Writes the tick history export.
pub fn render_tick_history_csv(history: &[TickSummaryText]) -> (out: Vec<u8>)
    ensures
        out@ == tick_history_csv(summaries_v(history@)),
{
    let ghost rows = summaries_v(history@).map_values(|t: (u64, Seq<u8>, Seq<u8>)| summary_row(t));
    let mut out: Vec<u8> = Vec::new();
    proof {
        reveal_strlit("tick,mean_vibe,mean_surprise\n");
    }
    push_lit(&mut out, "tick,mean_vibe,mean_surprise\n");
    let ghost header = out@;
    let mut i: usize = 0;
    while i < history.len()
        invariant
            i <= history@.len(),
            rows == summaries_v(history@).map_values(|t: (u64, Seq<u8>, Seq<u8>)| summary_row(t)),
            out@ == header + concat(rows.take(i as int)),
        decreases history@.len() - i,
    {
        let t = &history[i];
        let tick = decimal_bytes(t.tick);
        push_csv_line(&mut out, tick.as_slice(), t.mean_vibe.as_slice(), t.mean_surprise.as_slice());
        i = i + 1;
        assert(rows.take(i as int).drop_last() =~= rows.take(i - 1));
        assert(out@ =~= header + concat(rows.take(i as int)));
    }
    assert(rows.take(i as int) =~= rows);
    out
}

// ───────────── laws ─────────────

/// Lines that each end with their only newline split, at newlines, into their
/// bodies and then what follows.
pub proof fn lemma_split_lines(bodies: Seq<Seq<u8>>, tail: Seq<u8>)
    requires
        forall|k: int, i: int| 0 <= k < bodies.len() && 0 <= i < bodies[k].len() ==> #[trigger] bodies[k][i] != 10,
    ensures
        split_at_byte(concat(bodies.map_values(|b: Seq<u8>| b + seq![10u8])) + tail, 10) == bodies
            + split_at_byte(tail, 10),
    decreases bodies.len(),
{
    let lines = bodies.map_values(|b: Seq<u8>| b + seq![10u8]);
    if bodies.len() == 0 {
        assert(concat(lines) + tail =~= tail);
        assert(bodies + split_at_byte(tail, 10) =~= split_at_byte(tail, 10));
    } else {
        lemma_concat_front(lines);
        let rest = bodies.drop_first();
        assert forall|k: int, i: int| 0 <= k < rest.len() && 0 <= i < rest[k].len() implies #[trigger] rest[k][i] != 10 by {
            assert(rest[k] == bodies[k + 1]);
        }
        lemma_split_lines(rest, tail);
        assert(lines.drop_first() =~= rest.map_values(|b: Seq<u8>| b + seq![10u8]));
        let b0 = bodies[0];
        assert forall|i: int| 0 <= i < b0.len() implies b0[i] != 10 by {
            assert(bodies[0][i] != 10);
        }
        assert(concat(lines) + tail =~= b0 + seq![10u8] + (concat(lines.drop_first()) + tail));
        lemma_split_first(b0, concat(lines.drop_first()) + tail, 10);
        assert(bodies =~= seq![b0] + rest);
    }
}

/// The three fields of a line split back apart when the first two hold no comma.
pub proof fn lemma_fields_split(a: Seq<u8>, b: Seq<u8>, c: Seq<u8>)
    requires
        forall|i: int| 0 <= i < a.len() ==> a[i] != 44,
        forall|i: int| 0 <= i < b.len() ==> b[i] != 44,
        forall|i: int| 0 <= i < c.len() ==> c[i] != 44,
    ensures
        split_at_byte(csv_fields(a, b, c), 44) == seq![a, b, c],
{
    assert(csv_fields(a, b, c) =~= a + seq![44u8] + (b + seq![44u8] + c));
    lemma_split_first(a, b + seq![44u8] + c, 44);
    lemma_split_first(b, c, 44);
    lemma_split_none(c, 44);
    assert(seq![a] + (seq![b] + seq![c]) =~= seq![a, b, c]);
}

proof fn lemma_plain_no(t: Seq<u8>, c: u8)
    requires
        plain(t),
        c == 10 || c == 44,
    ensures
        forall|i: int| 0 <= i < t.len() ==> t[i] != c,
{
    assert forall|i: int| 0 <= i < t.len() implies t[i] != c by {
        assert(plain_byte(t[i]));
    }
}

/// Fields that are plain texts.
pub open spec fn plain_fields(rows: Seq<(Seq<u8>, Seq<u8>, Seq<u8>)>) -> bool {
    forall|k: int| 0 <= k < rows.len() ==> plain(#[trigger] rows[k].0) && plain(rows[k].1) && plain(rows[k].2)
}

/// A header line followed by one `a,b,c` line per row splits, at newlines,
/// into the header, the rows and a last empty piece, and each row splits, at
/// commas, into its three fields, whenever the fields are plain.
pub proof fn lemma_csv_table(header: Seq<u8>, rows: Seq<(Seq<u8>, Seq<u8>, Seq<u8>)>)
    requires
        forall|i: int| 0 <= i < header.len() ==> header[i] != 10,
        plain_fields(rows),
    ensures
        split_at_byte(
            header + seq![10u8] + concat(rows.map_values(|r: (Seq<u8>, Seq<u8>, Seq<u8>)| csv_line(r.0, r.1, r.2))),
            10,
        ) == seq![header] + rows.map_values(|r: (Seq<u8>, Seq<u8>, Seq<u8>)| csv_fields(r.0, r.1, r.2))
            + seq![Seq::<u8>::empty()],
        forall|k: int|
            0 <= k < rows.len() ==> split_at_byte(
                csv_fields((#[trigger] rows[k]).0, rows[k].1, rows[k].2),
                44,
            ) == seq![rows[k].0, rows[k].1, rows[k].2],
{
    let bodies = rows.map_values(|r: (Seq<u8>, Seq<u8>, Seq<u8>)| csv_fields(r.0, r.1, r.2));
    let all = seq![header] + bodies;
    assert forall|k: int, i: int| 0 <= k < all.len() && 0 <= i < all[k].len() implies #[trigger] all[k][i] != 10 by {
        if k > 0 {
            let r = rows[k - 1];
            lemma_plain_no(r.0, 10);
            lemma_plain_no(r.1, 10);
            lemma_plain_no(r.2, 10);
            assert(all[k] == csv_fields(r.0, r.1, r.2));
        }
    }
    lemma_split_lines(all, Seq::empty());
    let lines = all.map_values(|b: Seq<u8>| b + seq![10u8]);
    assert(lines.drop_first() =~= rows.map_values(|r: (Seq<u8>, Seq<u8>, Seq<u8>)| csv_line(r.0, r.1, r.2)));
    lemma_concat_front(lines);
    assert(concat(lines) + Seq::<u8>::empty() =~= header + seq![10u8] + concat(
        rows.map_values(|r: (Seq<u8>, Seq<u8>, Seq<u8>)| csv_line(r.0, r.1, r.2)),
    ));
    lemma_split_none(Seq::<u8>::empty(), 10);
    assert forall|k: int| 0 <= k < rows.len() implies split_at_byte(
        csv_fields((#[trigger] rows[k]).0, rows[k].1, rows[k].2),
        44,
    ) == seq![rows[k].0, rows[k].1, rows[k].2] by {
        lemma_plain_no(rows[k].0, 44);
        lemma_plain_no(rows[k].1, 44);
        lemma_plain_no(rows[k].2, 44);
        lemma_fields_split(rows[k].0, rows[k].1, rows[k].2);
    }
}

/// The fields of the rooms export's lines.
pub open spec fn room_fields(rooms: Seq<(usize, Seq<u8>, Seq<u8>)>) -> Seq<(Seq<u8>, Seq<u8>, Seq<u8>)> {
    rooms.map_values(|r: (usize, Seq<u8>, Seq<u8>)| (decimal(r.0 as nat), r.1, r.2))
}

/// The fields of the edges export's lines.
pub open spec fn edge_fields(edges: Seq<(usize, usize, Seq<u8>)>) -> Seq<(Seq<u8>, Seq<u8>, Seq<u8>)> {
    edges.map_values(|e: (usize, usize, Seq<u8>)| (decimal(e.0 as nat), decimal(e.1 as nat), e.2))
}

/// The fields of the tick history's lines.
pub open spec fn summary_fields(history: Seq<(u64, Seq<u8>, Seq<u8>)>) -> Seq<(Seq<u8>, Seq<u8>, Seq<u8>)> {
    history.map_values(|t: (u64, Seq<u8>, Seq<u8>)| (decimal(t.0 as nat), t.1, t.2))
}

/// Spreadsheet friendly: the rooms export is its header line and one line per
/// room, each holding exactly the id, vibe and surprise fields, whenever the
/// number texts are plain.
pub proof fn lemma_rooms_csv_lines(rooms: Seq<(usize, Seq<u8>, Seq<u8>)>)
    requires
        forall|i: int| 0 <= i < rooms.len() ==> plain(#[trigger] rooms[i].1) && plain(rooms[i].2),
    ensures
        split_at_byte(rooms_csv(rooms), 10) == seq![lit("id,vibe,surprise")] + room_fields(rooms).map_values(
            |r: (Seq<u8>, Seq<u8>, Seq<u8>)| csv_fields(r.0, r.1, r.2),
        ) + seq![Seq::<u8>::empty()],
        forall|k: int|
            0 <= k < rooms.len() ==> split_at_byte(
                csv_fields((#[trigger] room_fields(rooms)[k]).0, room_fields(rooms)[k].1, room_fields(rooms)[k].2),
                44,
            ) == seq![decimal(rooms[k].0 as nat), rooms[k].1, rooms[k].2],
{
    reveal_strlit("id,vibe,surprise\n");
    reveal_strlit("id,vibe,surprise");
    let rows = room_fields(rooms);
    assert forall|k: int| 0 <= k < rows.len() implies plain(#[trigger] rows[k].0) && plain(rows[k].1) && plain(rows[k].2) by {
        lemma_decimal_plain(rooms[k].0 as nat);
    }
    lemma_csv_table(lit("id,vibe,surprise"), rows);
    assert(lit("id,vibe,surprise") + seq![10u8] =~= lit("id,vibe,surprise\n"));
    assert(rows.map_values(|r: (Seq<u8>, Seq<u8>, Seq<u8>)| csv_line(r.0, r.1, r.2))
        =~= rooms.map_values(|r: (usize, Seq<u8>, Seq<u8>)| room_row(r)));
    assert(rooms_csv(rooms) =~= lit("id,vibe,surprise") + seq![10u8] + concat(
        rows.map_values(|r: (Seq<u8>, Seq<u8>, Seq<u8>)| csv_line(r.0, r.1, r.2)),
    ));
}

/// The edges export is its header line and one line per edge, each holding
/// exactly the from, to and weight fields, whenever the weight texts are plain.
pub proof fn lemma_edges_csv_lines(edges: Seq<(usize, usize, Seq<u8>)>)
    requires
        forall|i: int| 0 <= i < edges.len() ==> plain(#[trigger] edges[i].2),
    ensures
        split_at_byte(edges_csv(edges), 10) == seq![lit("from,to,weight")] + edge_fields(edges).map_values(
            |r: (Seq<u8>, Seq<u8>, Seq<u8>)| csv_fields(r.0, r.1, r.2),
        ) + seq![Seq::<u8>::empty()],
        forall|k: int|
            0 <= k < edges.len() ==> split_at_byte(
                csv_fields((#[trigger] edge_fields(edges)[k]).0, edge_fields(edges)[k].1, edge_fields(edges)[k].2),
                44,
            ) == seq![decimal(edges[k].0 as nat), decimal(edges[k].1 as nat), edges[k].2],
{
    reveal_strlit("from,to,weight\n");
    reveal_strlit("from,to,weight");
    let rows = edge_fields(edges);
    assert forall|k: int| 0 <= k < rows.len() implies plain(#[trigger] rows[k].0) && plain(rows[k].1) && plain(rows[k].2) by {
        lemma_decimal_plain(edges[k].0 as nat);
        lemma_decimal_plain(edges[k].1 as nat);
    }
    lemma_csv_table(lit("from,to,weight"), rows);
    assert(rows.map_values(|r: (Seq<u8>, Seq<u8>, Seq<u8>)| csv_line(r.0, r.1, r.2))
        =~= edges.map_values(|e: (usize, usize, Seq<u8>)| edge_row(e)));
    assert(edges_csv(edges) =~= lit("from,to,weight") + seq![10u8] + concat(
        rows.map_values(|r: (Seq<u8>, Seq<u8>, Seq<u8>)| csv_line(r.0, r.1, r.2)),
    ));
}

/// The tick history export is its header line and one line per tick, each
/// holding exactly the tick, mean vibe and mean surprise fields, whenever the
/// number texts are plain.
pub proof fn lemma_tick_history_csv_lines(history: Seq<(u64, Seq<u8>, Seq<u8>)>)
    requires
        forall|i: int| 0 <= i < history.len() ==> plain(#[trigger] history[i].1) && plain(history[i].2),
    ensures
        split_at_byte(tick_history_csv(history), 10) == seq![lit("tick,mean_vibe,mean_surprise")]
            + summary_fields(history).map_values(
            |r: (Seq<u8>, Seq<u8>, Seq<u8>)| csv_fields(r.0, r.1, r.2),
        ) + seq![Seq::<u8>::empty()],
        forall|k: int|
            0 <= k < history.len() ==> split_at_byte(
                csv_fields((#[trigger] summary_fields(history)[k]).0, summary_fields(history)[k].1, summary_fields(history)[k].2),
                44,
            ) == seq![decimal(history[k].0 as nat), history[k].1, history[k].2],
{
    reveal_strlit("tick,mean_vibe,mean_surprise\n");
    reveal_strlit("tick,mean_vibe,mean_surprise");
    let rows = summary_fields(history);
    assert forall|k: int| 0 <= k < rows.len() implies plain(#[trigger] rows[k].0) && plain(rows[k].1) && plain(rows[k].2) by {
        lemma_decimal_plain(history[k].0 as nat);
    }
    lemma_csv_table(lit("tick,mean_vibe,mean_surprise"), rows);
    assert(rows.map_values(|r: (Seq<u8>, Seq<u8>, Seq<u8>)| csv_line(r.0, r.1, r.2))
        =~= history.map_values(|t: (u64, Seq<u8>, Seq<u8>)| summary_row(t)));
    assert(tick_history_csv(history) =~= lit("tick,mean_vibe,mean_surprise") + seq![10u8] + concat(
        rows.map_values(|r: (Seq<u8>, Seq<u8>, Seq<u8>)| csv_line(r.0, r.1, r.2)),
    ));
}

} // verus!
