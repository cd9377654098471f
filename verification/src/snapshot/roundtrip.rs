//! A snapshot's text reads back as the snapshot.
use vstd::prelude::*;

use crate::persistence::csv::{csv_fields, lemma_fields_split};
use crate::persistence::json::{key_needle};
use crate::persistence::json_roundtrip::{
    lemma_join_shape, lemma_value_text_at, no_brackets, quotes_not_before,
};
use crate::snapshot::format::{
    pairs_from, reading_json, readings_of, room_snapshot_from, room_snapshot_json, rooms_scan,
    snap_id_field, snap_text_field, snapshot_from_json, snapshot_json, triple_json,
    triples_from, weights_of, ParsedRoomView, RoomSnapshotView,
};
use crate::text::{
    balanced, braced, decimal, find, first_of, group_contents, join_commas, lemma_braced_close,
    lemma_close_after_balanced, lemma_decimal_plain, lemma_find_from_first, lemma_find_is,
    lemma_first_of_concat, lemma_flat_balanced, lemma_group_contents_of_join,
    lemma_join_balanced, lemma_join_commas_front, lemma_balanced_concat, lemma_not_occurs,
    lemma_not_occurs_at, lemma_parse_decimal, lemma_split_first, lemma_split_join,
    lemma_split_none, lemma_trim_plain, lemma_wrapped_balanced, lit, occurs_at, parse_unsigned,
    plain, plain_byte, split_at_byte, trim,
};

use crate::float_text::{
    index_limit, is_float_text, lemma_decimal_float, lemma_float_text_plain, IndexValue,
};

verus! {

proof fn lemma_snapshot_lits()
    ensures
        lit("{\"tick\":") == seq![123u8, 34u8, 116u8, 105u8, 99u8, 107u8, 34u8, 58u8],
        lit(",\"rooms\":[") == seq![44u8, 34u8, 114u8, 111u8, 111u8, 109u8, 115u8, 34u8, 58u8, 91u8],
        lit("],\"edges\":[") == seq![93u8, 44u8, 34u8, 101u8, 100u8, 103u8, 101u8, 115u8, 34u8, 58u8, 91u8],
        lit("]}") == seq![93u8, 125u8],
        lit("\"tick\":") == seq![34u8, 116u8, 105u8, 99u8, 107u8, 34u8, 58u8],
        lit("\"rooms\":[") == seq![34u8, 114u8, 111u8, 111u8, 109u8, 115u8, 34u8, 58u8, 91u8],
        lit("\"edges\":[") == seq![34u8, 101u8, 100u8, 103u8, 101u8, 115u8, 34u8, 58u8, 91u8],
        lit("{\"id\":") == seq![123u8, 34u8, 105u8, 100u8, 34u8, 58u8],
        lit(",\"vibe\":") == seq![44u8, 34u8, 118u8, 105u8, 98u8, 101u8, 34u8, 58u8],
        lit(",\"surprise\":") == seq![44u8, 34u8, 115u8, 117u8, 114u8, 112u8, 114u8, 105u8, 115u8, 101u8, 34u8, 58u8],
        lit(",\"jepa_readings\":[") == seq![44u8, 34u8, 106u8, 101u8, 112u8, 97u8, 95u8, 114u8, 101u8, 97u8, 100u8, 105u8, 110u8, 103u8, 115u8, 34u8, 58u8, 91u8],
        lit("],\"jepa_weights\":[") == seq![93u8, 44u8, 34u8, 106u8, 101u8, 112u8, 97u8, 95u8, 119u8, 101u8, 105u8, 103u8, 104u8, 116u8, 115u8, 34u8, 58u8, 91u8],
        lit("\"jepa_readings\":[") == seq![34u8, 106u8, 101u8, 112u8, 97u8, 95u8, 114u8, 101u8, 97u8, 100u8, 105u8, 110u8, 103u8, 115u8, 34u8, 58u8, 91u8],
        lit("\"jepa_weights\":[") == seq![34u8, 106u8, 101u8, 112u8, 97u8, 95u8, 119u8, 101u8, 105u8, 103u8, 104u8, 116u8, 115u8, 34u8, 58u8, 91u8],
        lit("id") == seq![105u8, 100u8],
        lit("vibe") == seq![118u8, 105u8, 98u8, 101u8],
        lit("surprise") == seq![115u8, 117u8, 114u8, 112u8, 114u8, 105u8, 115u8, 101u8],
{
    reveal_strlit("{\"tick\":");
    reveal_strlit(",\"rooms\":[");
    reveal_strlit("],\"edges\":[");
    reveal_strlit("]}");
    reveal_strlit("\"tick\":");
    reveal_strlit("\"rooms\":[");
    reveal_strlit("\"edges\":[");
    reveal_strlit("{\"id\":");
    reveal_strlit(",\"vibe\":");
    reveal_strlit(",\"surprise\":");
    reveal_strlit(",\"jepa_readings\":[");
    reveal_strlit("],\"jepa_weights\":[");
    reveal_strlit("\"jepa_readings\":[");
    reveal_strlit("\"jepa_weights\":[");
    reveal_strlit("id");
    reveal_strlit("vibe");
    reveal_strlit("surprise");
    assert(lit("{\"tick\":") =~= seq![123u8, 34u8, 116u8, 105u8, 99u8, 107u8, 34u8, 58u8]);
    assert(lit(",\"rooms\":[") =~= seq![44u8, 34u8, 114u8, 111u8, 111u8, 109u8, 115u8, 34u8, 58u8, 91u8]);
    assert(lit("],\"edges\":[") =~= seq![93u8, 44u8, 34u8, 101u8, 100u8, 103u8, 101u8, 115u8, 34u8, 58u8, 91u8]);
    assert(lit("]}") =~= seq![93u8, 125u8]);
    assert(lit("\"tick\":") =~= seq![34u8, 116u8, 105u8, 99u8, 107u8, 34u8, 58u8]);
    assert(lit("\"rooms\":[") =~= seq![34u8, 114u8, 111u8, 111u8, 109u8, 115u8, 34u8, 58u8, 91u8]);
    assert(lit("\"edges\":[") =~= seq![34u8, 101u8, 100u8, 103u8, 101u8, 115u8, 34u8, 58u8, 91u8]);
    assert(lit("{\"id\":") =~= seq![123u8, 34u8, 105u8, 100u8, 34u8, 58u8]);
    assert(lit(",\"vibe\":") =~= seq![44u8, 34u8, 118u8, 105u8, 98u8, 101u8, 34u8, 58u8]);
    assert(lit(",\"surprise\":") =~= seq![44u8, 34u8, 115u8, 117u8, 114u8, 112u8, 114u8, 105u8, 115u8, 101u8, 34u8, 58u8]);
    assert(lit(",\"jepa_readings\":[") =~= seq![44u8, 34u8, 106u8, 101u8, 112u8, 97u8, 95u8, 114u8, 101u8, 97u8, 100u8, 105u8, 110u8, 103u8, 115u8, 34u8, 58u8, 91u8]);
    assert(lit("],\"jepa_weights\":[") =~= seq![93u8, 44u8, 34u8, 106u8, 101u8, 112u8, 97u8, 95u8, 119u8, 101u8, 105u8, 103u8, 104u8, 116u8, 115u8, 34u8, 58u8, 91u8]);
    assert(lit("\"jepa_readings\":[") =~= seq![34u8, 106u8, 101u8, 112u8, 97u8, 95u8, 114u8, 101u8, 97u8, 100u8, 105u8, 110u8, 103u8, 115u8, 34u8, 58u8, 91u8]);
    assert(lit("\"jepa_weights\":[") =~= seq![34u8, 106u8, 101u8, 112u8, 97u8, 95u8, 119u8, 101u8, 105u8, 103u8, 104u8, 116u8, 115u8, 34u8, 58u8, 91u8]);
    assert(lit("id") =~= seq![105u8, 100u8]);
    assert(lit("vibe") =~= seq![118u8, 105u8, 98u8, 101u8]);
    assert(lit("surprise") =~= seq![115u8, 117u8, 114u8, 112u8, 114u8, 105u8, 115u8, 101u8]);
}

/// Every number text of a room is plain, and its weight texts are not empty.
pub open spec fn plain_room(r: RoomSnapshotView) -> bool {
    &&& plain(r.vibe)
    &&& plain(r.surprise)
    &&& forall|k: int| 0 <= k < r.readings.len() ==> plain(#[trigger] r.readings[k].0) && plain(r.readings[k].1)
    &&& forall|k: int| 0 <= k < r.weights.len() ==> plain(#[trigger] r.weights[k]) && r.weights[k].len() > 0
}

/// A room whose text reads back: its vibe and surprise are `f64` texts (as
/// `f64`'s `Display` writes them), its id is at most `index_limit()`, and the
/// texts of its readings and weights are plain (the weights' not empty).
pub open spec fn readable_room(r: RoomSnapshotView) -> bool {
    &&& is_float_text(r.vibe)
    &&& is_float_text(r.surprise)
    &&& r.id <= index_limit()
    &&& forall|k: int| 0 <= k < r.readings.len() ==> plain(#[trigger] r.readings[k].0) && plain(r.readings[k].1)
    &&& forall|k: int| 0 <= k < r.weights.len() ==> plain(#[trigger] r.weights[k]) && r.weights[k].len() > 0
}

proof fn lemma_readable_room_plain(r: RoomSnapshotView)
    requires
        readable_room(r),
    ensures
        plain_room(r),
{
    lemma_float_text_plain(r.vibe);
    lemma_float_text_plain(r.surprise);
}

/// What a room reads back as: the same room, its id as an exact index.
pub open spec fn read_back_room(r: RoomSnapshotView) -> ParsedRoomView {
    ParsedRoomView {
        id: IndexValue::Exact(r.id),
        vibe: r.vibe,
        surprise: r.surprise,
        readings: r.readings,
        weights: r.weights,
    }
}

proof fn lemma_plain_lacks(t: Seq<u8>)
    requires
        plain(t),
    ensures
        forall|i: int| 0 <= i < t.len() ==> t[i] != 44 && t[i] != 34 && t[i] != 91 && t[i] != 93
            && t[i] != 123 && t[i] != 125,
{
    assert forall|i: int| 0 <= i < t.len() implies t[i] != 44 && t[i] != 34 && t[i] != 91 && t[i]
        != 93 && t[i] != 123 && t[i] != 125 by {
        assert(plain_byte(t[i]));
    }
}

/// `a,b` splits back into `a` and `b`, trimmed.
proof fn lemma_pair_parts(a: Seq<u8>, b: Seq<u8>)
    requires
        plain(a),
        plain(b),
    ensures
        split_at_byte(a + seq![44u8] + b, 44) == seq![a, b],
        trim(a) == a,
        trim(b) == b,
{
    lemma_plain_lacks(a);
    lemma_plain_lacks(b);
    lemma_split_first(a, b, 44);
    lemma_split_none(b, 44);
    assert(seq![a] + seq![b] =~= seq![a, b]);
    lemma_trim_plain(a);
    lemma_trim_plain(b);
}

proof fn lemma_pairs_read_back(readings: Seq<(Seq<u8>, Seq<u8>)>)
    requires
        forall|k: int| 0 <= k < readings.len() ==> plain(#[trigger] readings[k].0) && plain(readings[k].1),
    ensures
        pairs_from(readings.map_values(|p: (Seq<u8>, Seq<u8>)| p.0 + seq![44u8] + p.1)) == readings,
    decreases readings.len(),
{
    let inners = readings.map_values(|p: (Seq<u8>, Seq<u8>)| p.0 + seq![44u8] + p.1);
    if readings.len() > 0 {
        let init = readings.drop_last();
        assert forall|k: int| 0 <= k < init.len() implies plain(#[trigger] init[k].0) && plain(init[k].1) by {
            assert(init[k] == readings[k]);
        }
        lemma_pairs_read_back(init);
        assert(inners.drop_last() =~= init.map_values(|p: (Seq<u8>, Seq<u8>)| p.0 + seq![44u8] + p.1));
        let last = readings.last();
        assert(plain(readings[readings.len() - 1].0) && plain(readings[readings.len() - 1].1));
        lemma_pair_parts(last.0, last.1);
        assert(init.push(last) =~= readings);
    } else {
        assert(readings =~= Seq::empty());
    }
}

/// `[a,b]` is braced by brackets and balanced.
proof fn lemma_reading_json_shape(p: (Seq<u8>, Seq<u8>))
    requires
        plain(p.0),
        plain(p.1),
    ensures
        braced(reading_json(p), 91, 93),
        balanced(reading_json(p), 91, 93),
        reading_json(p).subrange(1, reading_json(p).len() - 1) == p.0 + seq![44u8] + p.1,
        no_quotes(reading_json(p)),
        no_braces(reading_json(p)),
{
    lemma_plain_lacks(p.0);
    lemma_plain_lacks(p.1);
    let x = reading_json(p);
    let inner = p.0 + seq![44u8] + p.1;
    assert(x =~= seq![91u8] + inner + seq![93u8]);
    assert(x.subrange(1, x.len() - 1) =~= inner);
    lemma_flat_balanced(inner, 91, 93);
    lemma_wrapped_balanced(inner, 91, 93);
}

/// No `"` in `x`.
pub open spec fn no_quotes(x: Seq<u8>) -> bool {
    forall|i: int| 0 <= i < x.len() ==> #[trigger] x[i] != 34
}

/// No `{` or `}` in `x`.
pub open spec fn no_braces(x: Seq<u8>) -> bool {
    forall|i: int| 0 <= i < x.len() ==> #[trigger] x[i] != 123 && x[i] != 125
}

proof fn lemma_join_no_quotes_braces(items: Seq<Seq<u8>>)
    requires
        forall|k: int| 0 <= k < items.len() ==> no_quotes(#[trigger] items[k]) && no_braces(items[k]),
    ensures
        no_quotes(join_commas(items)),
        no_braces(join_commas(items)),
    decreases items.len(),
{
    if items.len() == 1 {
        assert(no_quotes(items[0]) && no_braces(items[0]));
    } else if items.len() > 1 {
        let init = items.drop_last();
        assert forall|k: int| 0 <= k < init.len() implies no_quotes(#[trigger] init[k]) && no_braces(init[k]) by {
            assert(init[k] == items[k]);
        }
        lemma_join_no_quotes_braces(init);
        assert(no_quotes(items[items.len() - 1]) && no_braces(items[items.len() - 1]));
        let j = join_commas(items);
        let ji = join_commas(init);
        assert(j == ji + seq![44u8] + items.last());
        assert forall|i: int| 0 <= i < j.len() implies #[trigger] j[i] != 34 by {
            if i < ji.len() {
                assert(j[i] == ji[i]);
            } else if i > ji.len() {
                assert(j[i] == items.last()[i - ji.len() - 1]);
            }
        }
        assert forall|i: int| 0 <= i < j.len() implies #[trigger] j[i] != 123 && j[i] != 125 by {
            if i < ji.len() {
                assert(j[i] == ji[i]);
            } else if i > ji.len() {
                assert(j[i] == items.last()[i - ji.len() - 1]);
            }
        }
    }
}

/// The readings of a room joined as the text writes them.
pub open spec fn readings_json(r: RoomSnapshotView) -> Seq<u8> {
    join_commas(r.readings.map_values(|p: (Seq<u8>, Seq<u8>)| reading_json(p)))
}

proof fn lemma_readings_json_shape(r: RoomSnapshotView)
    requires
        plain_room(r),
    ensures
        balanced(readings_json(r), 91, 93),
        no_quotes(readings_json(r)),
        no_braces(readings_json(r)),
        group_contents(readings_json(r), 91, 93) == r.readings.map_values(
            |p: (Seq<u8>, Seq<u8>)| p.0 + seq![44u8] + p.1,
        ),
{
    let items = r.readings.map_values(|p: (Seq<u8>, Seq<u8>)| reading_json(p));
    assert forall|k: int| 0 <= k < items.len() implies braced(#[trigger] items[k], 91, 93) && balanced(
        items[k],
        91,
        93,
    ) && no_quotes(items[k]) && no_braces(items[k]) && items[k].subrange(1, items[k].len() - 1)
        == r.readings[k].0 + seq![44u8] + r.readings[k].1 by {
        assert(plain(r.readings[k].0) && plain(r.readings[k].1));
        lemma_reading_json_shape(r.readings[k]);
    }
    lemma_join_balanced(items, 91, 93);
    lemma_join_no_quotes_braces(items);
    lemma_group_contents_of_join(items, 91, 93);
    assert(items.map_values(|x: Seq<u8>| x.subrange(1, x.len() - 1)) =~= r.readings.map_values(
        |p: (Seq<u8>, Seq<u8>)| p.0 + seq![44u8] + p.1,
    ));
}

proof fn lemma_weights_json_shape(r: RoomSnapshotView)
    requires
        plain_room(r),
    ensures
        no_brackets(join_commas(r.weights)),
        no_quotes(join_commas(r.weights)),
        no_braces(join_commas(r.weights)),
        r.weights.len() > 0 ==> split_at_byte(join_commas(r.weights), 44).map_values(|p: Seq<u8>| trim(p))
            == r.weights,
        join_commas(r.weights).len() == 0 <==> r.weights.len() == 0,
{
    let ws = r.weights;
    assert forall|k: int| 0 <= k < ws.len() implies no_brackets(#[trigger] ws[k]) && quotes_not_before(
        ws[k],
        101,
    ) && no_quotes(ws[k]) && no_braces(ws[k]) by {
        assert(plain(ws[k]));
        lemma_plain_lacks(ws[k]);
    }
    lemma_join_shape(ws, 101);
    lemma_join_no_quotes_braces(ws);
    assert forall|k: int, i: int| 0 <= k < ws.len() && 0 <= i < ws[k].len() implies #[trigger] ws[k][i] != 44 by {
        assert(plain(ws[k]));
        assert(plain_byte(ws[k][i]));
    }
    lemma_split_join(ws);
    if ws.len() == 0 {
        assert(join_commas(ws).len() == 0);
    } else {
        assert(ws[ws.len() - 1].len() > 0);
        if ws.len() > 1 {
            assert(join_commas(ws) == join_commas(ws.drop_last()) + seq![44u8] + ws.last());
        }
        assert(join_commas(ws).len() > 0);
        assert forall|k: int| 0 <= k < ws.len() implies #[trigger] trim(ws[k]) == ws[k] by {
            assert(plain(ws[k]));
            lemma_trim_plain(ws[k]);
        }
        assert(ws.map_values(|p: Seq<u8>| trim(p)) =~= ws);
    }
}

/// A room's text is one object, balanced in its brackets, and no `"` in it is
/// followed by `e`.
#[verifier::spinoff_prover]
#[verifier::rlimit(60)]
proof fn lemma_room_snapshot_json_shape(r: RoomSnapshotView)
    requires
        plain_room(r),
    ensures
        braced(room_snapshot_json(r), 123, 125),
        balanced(room_snapshot_json(r), 91, 93),
        quotes_not_before(room_snapshot_json(r), 101),
{
    lemma_snapshot_lits();
    lemma_readings_json_shape(r);
    lemma_weights_json_shape(r);
    let d = decimal(r.id as nat);
    lemma_decimal_plain(r.id as nat);
    let pj = readings_json(r);
    let wj = join_commas(r.weights);
    let v = r.vibe;
    let s = r.surprise;
    let x = room_snapshot_json(r);
    let od = 6int;
    let ov = od + d.len() + 8;
    let os = ov + v.len() + 12;
    let opj = os + s.len() + 18;
    let owj = opj + pj.len() + 18;
    assert(x.len() == owj + wj.len() + 2);
    assert forall|i: int| 0 <= i < x.len() implies (1 <= i < x.len() - 1 ==> #[trigger] x[i] != 123
        && x[i] != 125) && (x[i] == 34 ==> i + 1 < x.len() && x[i + 1] != 101) by {
        if od <= i < od + d.len() {
            assert(plain_byte(d[i - od]));
        } else if ov <= i < ov + v.len() {
            assert(plain_byte(v[i - ov]));
        } else if os <= i < os + s.len() {
            assert(plain_byte(s[i - os]));
        } else if opj <= i < opj + pj.len() {
            assert(x[i] == pj[i - opj]);
        } else if owj <= i < owj + wj.len() {
            assert(x[i] == wj[i - owj]);
        }
        if x[i] == 34 {
            if od <= i + 1 < od + d.len() {
                assert(plain_byte(d[i + 1 - od]));
            } else if ov <= i + 1 < ov + v.len() {
                assert(plain_byte(v[i + 1 - ov]));
            } else if os <= i + 1 < os + s.len() {
                assert(plain_byte(s[i + 1 - os]));
            }
        }
    }
    let f1 = lit("{\"id\":") + d + lit(",\"vibe\":") + v + lit(",\"surprise\":") + s + seq![44u8, 34u8, 106u8, 101u8, 112u8, 97u8, 95u8, 114u8, 101u8, 97u8, 100u8, 105u8, 110u8, 103u8, 115u8, 34u8, 58u8];
    let f2 = seq![44u8, 34u8, 106u8, 101u8, 112u8, 97u8, 95u8, 119u8, 101u8, 105u8, 103u8, 104u8, 116u8, 115u8, 34u8, 58u8];
    assert(x =~= f1 + (seq![91u8] + pj + seq![93u8]) + f2 + (seq![91u8] + wj + seq![93u8]) + seq![125u8]);
    assert forall|i: int| 0 <= i < f1.len() implies f1[i] != 91 && f1[i] != 93 by {
        if od <= i < od + d.len() {
            assert(plain_byte(d[i - od]));
        } else if ov <= i < ov + v.len() {
            assert(plain_byte(v[i - ov]));
        } else if os <= i < os + s.len() {
            assert(plain_byte(s[i - os]));
        }
    }
    lemma_flat_balanced(f1, 91, 93);
    lemma_flat_balanced(f2, 91, 93);
    lemma_flat_balanced(seq![125u8], 91, 93);
    lemma_flat_balanced(wj, 91, 93);
    lemma_wrapped_balanced(pj, 91, 93);
    lemma_wrapped_balanced(wj, 91, 93);
    lemma_balanced_concat(f1, seq![91u8] + pj + seq![93u8], 91, 93);
    lemma_balanced_concat(f1 + (seq![91u8] + pj + seq![93u8]), f2, 91, 93);
    lemma_balanced_concat(f1 + (seq![91u8] + pj + seq![93u8]) + f2, seq![91u8] + wj + seq![93u8], 91, 93);
    lemma_balanced_concat(
        f1 + (seq![91u8] + pj + seq![93u8]) + f2 + (seq![91u8] + wj + seq![93u8]),
        seq![125u8],
        91,
        93,
    );
}

/// The id, vibe and surprise of a room's text read back.
#[verifier::spinoff_prover]
#[verifier::rlimit(60)]
proof fn lemma_room_fields_read_back(r: RoomSnapshotView)
    requires
        readable_room(r),
    ensures
        snap_id_field(room_snapshot_json(r)) == Ok::<_, crate::snapshot::format::SnapshotFault>(
            IndexValue::Exact(r.id),
        ),
        snap_text_field(room_snapshot_json(r), lit("vibe")) == Ok::<_, crate::snapshot::format::SnapshotFault>(r.vibe),
        snap_text_field(room_snapshot_json(r), lit("surprise")) == Ok::<_, crate::snapshot::format::SnapshotFault>(
            r.surprise,
        ),
{
    lemma_snapshot_lits();
    lemma_readable_room_plain(r);
    let d = decimal(r.id as nat);
    lemma_decimal_plain(r.id as nat);
    lemma_decimal_float(r.id as nat);
    lemma_parse_decimal(r.id as nat, index_limit());
    lemma_trim_plain(d);
    let x = room_snapshot_json(r);
    let pj = readings_json(r);
    let wj = join_commas(r.weights);
    let tail = lit(",\"jepa_readings\":[") + pj + lit("],\"jepa_weights\":[") + wj + lit("]}");
    let v = r.vibe;
    let s = r.surprise;

    let post_id = lit(",\"vibe\":") + v + lit(",\"surprise\":") + s + tail;
    assert(x =~= seq![123u8] + key_needle(lit("id")) + d + post_id);
    lemma_value_text_at(x, lit("id"), seq![123u8], d, post_id);

    let pre_v = lit("{\"id\":") + d + seq![44u8];
    let post_v = lit(",\"surprise\":") + s + tail;
    assert(x =~= pre_v + key_needle(lit("vibe")) + v + post_v);
    assert forall|j: int| #![trigger pre_v[j]] 0 <= j < pre_v.len() - 1 && pre_v[j] == 34 implies pre_v[j + 1] != 118 by {
        if 6 <= j < 6 + d.len() {
            assert(plain_byte(d[j - 6]));
        }
        if 6 <= j + 1 < 6 + d.len() {
            assert(plain_byte(d[j + 1 - 6]));
        }
    }
    lemma_value_text_at(x, lit("vibe"), pre_v, v, post_v);

    let pre_s = lit("{\"id\":") + d + lit(",\"vibe\":") + v + seq![44u8];
    assert(x =~= pre_s + key_needle(lit("surprise")) + s + tail);
    assert forall|j: int| #![trigger pre_s[j]] 0 <= j < pre_s.len() - 1 && pre_s[j] == 34 implies pre_s[j + 1] != 115 by {
        if 6 <= j < 6 + d.len() {
            assert(plain_byte(d[j - 6]));
        }
        if 14 + d.len() <= j < 14 + d.len() + v.len() {
            assert(plain_byte(v[j - 14 - d.len()]));
        }
    }
    lemma_value_text_at(x, lit("surprise"), pre_s, s, tail);
}

/// The readings of a room's text read back.
#[verifier::spinoff_prover]
#[verifier::rlimit(60)]
proof fn lemma_room_readings_read_back(r: RoomSnapshotView)
    requires
        plain_room(r),
    ensures
        readings_of(room_snapshot_json(r)) == r.readings,
{
    lemma_snapshot_lits();
    lemma_readings_json_shape(r);
    lemma_weights_json_shape(r);
    let d = decimal(r.id as nat);
    lemma_decimal_plain(r.id as nat);
    let x = room_snapshot_json(r);
    let pj = readings_json(r);
    let wj = join_commas(r.weights);
    let v = r.vibe;
    let s = r.surprise;
    let nr = lit("\"jepa_readings\":[");
    let od = 6int;
    let ov = od + d.len() + 8;
    let os = ov + v.len() + 12;
    let pr = os + s.len() + 1;
    assert(x.subrange(pr, pr + 17) =~= nr);
    assert forall|j: int| #![trigger x[j]] 0 <= j < pr implies x[j] != nr[0] || x[j + 1] != nr[1] by {
        if od <= j < od + d.len() {
            assert(plain_byte(d[j - od]));
        } else if ov <= j < ov + v.len() {
            assert(plain_byte(v[j - ov]));
        } else if os <= j < os + s.len() {
            assert(plain_byte(s[j - os]));
        }
        if x[j] == 34 {
            if od <= j + 1 < od + d.len() {
                assert(plain_byte(d[j + 1 - od]));
            } else if ov <= j + 1 < ov + v.len() {
                assert(plain_byte(v[j + 1 - ov]));
            } else if os <= j + 1 < os + s.len() {
                assert(plain_byte(s[j + 1 - os]));
            }
        }
    }
    lemma_find_is(x, nr, pr);
    let rest = x.skip(pr + 17);
    let after = lit("],\"jepa_weights\":[") + wj + lit("]}");
    assert(rest =~= pj + after);
    lemma_close_after_balanced(pj, after, 91, 93);
    assert(rest.take(pj.len() as int) =~= pj);
    lemma_pairs_read_back(r.readings);
}

/// The weights of a room's text read back.
#[verifier::spinoff_prover]
#[verifier::rlimit(60)]
proof fn lemma_room_weights_read_back(r: RoomSnapshotView)
    requires
        plain_room(r),
    ensures
        weights_of(room_snapshot_json(r)) == read_back_room(r).weights,
{
    lemma_snapshot_lits();
    lemma_readings_json_shape(r);
    lemma_weights_json_shape(r);
    let d = decimal(r.id as nat);
    lemma_decimal_plain(r.id as nat);
    let x = room_snapshot_json(r);
    let pj = readings_json(r);
    let wj = join_commas(r.weights);
    let v = r.vibe;
    let s = r.surprise;
    let nw = lit("\"jepa_weights\":[");
    let od = 6int;
    let ov = od + d.len() + 8;
    let os = ov + v.len() + 12;
    let pr = os + s.len() + 1;
    let opj = pr + 17;
    let pw = opj + pj.len() + 2;
    assert(x.subrange(pw, pw + 16) =~= nw);
    assert forall|j: int| 0 <= j < pw implies !occurs_at(x, nw, j) by {
        if j == pr {
            lemma_not_occurs_at(x, nw, j, 6);
        } else {
            if od <= j < od + d.len() {
                assert(plain_byte(d[j - od]));
            } else if ov <= j < ov + v.len() {
                assert(plain_byte(v[j - ov]));
            } else if os <= j < os + s.len() {
                assert(plain_byte(s[j - os]));
            } else if opj <= j < opj + pj.len() {
                assert(x[j] == pj[j - opj]);
            }
            if x[j] == 34 {
                if od <= j + 1 < od + d.len() {
                    assert(plain_byte(d[j + 1 - od]));
                } else if ov <= j + 1 < ov + v.len() {
                    assert(plain_byte(v[j + 1 - ov]));
                } else if os <= j + 1 < os + s.len() {
                    assert(plain_byte(s[j + 1 - os]));
                }
            }
            lemma_not_occurs(x, nw, j);
        }
    }
    lemma_find_from_first(x, nw, 0, pw);
    let rest = x.skip(pw + 16);
    assert(rest =~= wj + lit("]}"));
    assert forall|i: int| 0 <= i < wj.len() implies wj[i] != 93 && wj[i] != 93 by {}
    lemma_first_of_concat(wj, lit("]}"), 93, 93, 0);
    assert(rest.take(wj.len() as int) =~= wj);
}

/// A room's text reads back as the room.
pub proof fn lemma_room_snapshot_read_back(r: RoomSnapshotView)
    requires
        readable_room(r),
    ensures
        room_snapshot_from(room_snapshot_json(r)) == Ok::<_, crate::snapshot::format::SnapshotFault>(
            read_back_room(r),
        ),
{
    lemma_readable_room_plain(r);
    lemma_room_fields_read_back(r);
    lemma_room_readings_read_back(r);
    lemma_room_weights_read_back(r);
}

proof fn lemma_join_quotes(items: Seq<Seq<u8>>, c: u8)
    requires
        c != 44,
        forall|k: int| 0 <= k < items.len() ==> quotes_not_before(#[trigger] items[k], c),
    ensures
        quotes_not_before(join_commas(items), c),
    decreases items.len(),
{
    if items.len() == 1 {
        assert(quotes_not_before(items[0], c));
    } else if items.len() > 1 {
        let init = items.drop_last();
        assert forall|k: int| 0 <= k < init.len() implies quotes_not_before(#[trigger] init[k], c) by {
            assert(init[k] == items[k]);
        }
        lemma_join_quotes(init, c);
        let last = items.last();
        assert(quotes_not_before(items[items.len() - 1], c));
        let ji = join_commas(init);
        let j = join_commas(items);
        assert(j == ji + seq![44u8] + last);
        assert forall|i: int| 0 <= i < j.len() && #[trigger] j[i] == 34 implies i + 1 < j.len()
            && j[i + 1] != c by {
            if i < ji.len() {
                assert(j[i] == ji[i]);
                if i + 1 < ji.len() {
                    assert(j[i + 1] == ji[i + 1]);
                }
            } else if i > ji.len() {
                assert(j[i] == last[i - ji.len() - 1]);
                assert(j[i + 1] == last[i + 1 - ji.len() - 1]);
            }
        }
    }
}

/// The rooms of a text, scanned from `pos`, where the rest of the text is the
/// rooms' objects joined by commas.
#[verifier::spinoff_prover]
#[verifier::rlimit(40)]
proof fn lemma_rooms_scan_join(rs: Seq<u8>, pos: int, rooms: Seq<RoomSnapshotView>)
    requires
        0 <= pos <= rs.len(),
        forall|k: int| 0 <= k < rooms.len() ==> readable_room(#[trigger] rooms[k]),
        rs.skip(pos) == join_commas(rooms.map_values(|r: RoomSnapshotView| room_snapshot_json(r))),
    ensures
        rooms_scan(rs, pos) == Ok::<_, crate::snapshot::format::SnapshotFault>(
            rooms.map_values(|r: RoomSnapshotView| read_back_room(r)),
        ),
    decreases rooms.len(),
{
    let items = rooms.map_values(|r: RoomSnapshotView| room_snapshot_json(r));
    if rooms.len() == 0 {
        assert(rs.skip(pos).len() == 0);
        assert(rooms.map_values(|r: RoomSnapshotView| read_back_room(r)) =~= Seq::empty());
    } else {
        let r0 = rooms[0];
        assert(readable_room(rooms[0]));
        lemma_readable_room_plain(r0);
        lemma_room_snapshot_json_shape(r0);
        lemma_room_snapshot_read_back(r0);
        let x0 = items[0];
        let rest = rooms.drop_first();
        assert forall|k: int| 0 <= k < rest.len() implies readable_room(#[trigger] rest[k]) by {
            assert(rest[k] == rooms[k + 1]);
        }
        if rooms.len() == 1 {
            let tail = Seq::<u8>::empty();
            assert(rs.skip(pos) =~= x0 + tail);
            assert(rs[pos] == x0[0]);
            lemma_braced_close(x0, tail, 123, 125);
            assert(rs.subrange(pos, pos + x0.len()) =~= x0);
            let p1 = pos + x0.len();
            assert(p1 == rs.len());
            assert(rooms_scan(rs, p1) == Ok::<_, crate::snapshot::format::SnapshotFault>(Seq::<ParsedRoomView>::empty()));
            assert(rooms.map_values(|r: RoomSnapshotView| read_back_room(r)) =~= seq![read_back_room(r0)]);
            assert(seq![read_back_room(r0)] + Seq::<ParsedRoomView>::empty() =~= seq![read_back_room(r0)]);
        } else {
            lemma_join_commas_front(items);
            let rj = join_commas(rest.map_values(|r: RoomSnapshotView| room_snapshot_json(r)));
            assert(items.drop_first() =~= rest.map_values(|r: RoomSnapshotView| room_snapshot_json(r)));
            let tail = seq![44u8] + rj;
            assert(rs.skip(pos) =~= x0 + tail);
            assert(rs[pos] == x0[0]);
            lemma_braced_close(x0, tail, 123, 125);
            assert(rs.subrange(pos, pos + x0.len()) =~= x0);
            let p1 = pos + x0.len();
            assert(rs[p1] == rs.skip(pos)[x0.len() as int]);
            assert(rs[p1] == 44);
            let sp = rs.skip(pos);
            assert forall|i: int| 0 <= i < rj.len() implies rs.skip(p1 + 1)[i] == rj[i] by {
                assert(rs.skip(p1 + 1)[i] == rs[p1 + 1 + i]);
                assert(sp[x0.len() + 1 + i] == rs[pos + x0.len() + 1 + i]);
            }
            assert(rs.skip(p1 + 1) =~= rj);
            assert(rooms_scan(rs, p1) == rooms_scan(rs, p1 + 1));
            lemma_rooms_scan_join(rs, p1 + 1, rest);
            assert(rooms.map_values(|r: RoomSnapshotView| read_back_room(r)) =~= seq![read_back_room(r0)]
                + rest.map_values(|r: RoomSnapshotView| read_back_room(r)));
        }
    }
}

proof fn lemma_triple_json_shape(e: (usize, usize, Seq<u8>))
    requires
        plain(e.2),
    ensures
        braced(triple_json(e), 91, 93),
        balanced(triple_json(e), 91, 93),
        triple_json(e).subrange(1, triple_json(e).len() - 1) == csv_fields(
            decimal(e.0 as nat),
            decimal(e.1 as nat),
            e.2,
        ),
{
    lemma_decimal_plain(e.0 as nat);
    lemma_decimal_plain(e.1 as nat);
    let f = decimal(e.0 as nat);
    let t = decimal(e.1 as nat);
    lemma_plain_lacks(f);
    lemma_plain_lacks(t);
    lemma_plain_lacks(e.2);
    let inner = csv_fields(f, t, e.2);
    let x = triple_json(e);
    assert(x =~= seq![91u8] + inner + seq![93u8]);
    assert(x.subrange(1, x.len() - 1) =~= inner);
    assert forall|i: int| 0 <= i < inner.len() implies inner[i] != 91 && inner[i] != 93 by {
        if i < f.len() {
        } else if f.len() < i < f.len() + 1 + t.len() {
            assert(inner[i] == t[i - f.len() - 1]);
        } else if i > f.len() + 1 + t.len() {
            assert(inner[i] == e.2[i - f.len() - 2 - t.len()]);
        }
    }
    lemma_flat_balanced(inner, 91, 93);
    lemma_wrapped_balanced(inner, 91, 93);
}

/// What the edges of a text read back as: both endpoints found.
pub open spec fn read_back_edges(edges: Seq<(usize, usize, Seq<u8>)>) -> Seq<(Option<usize>, Option<usize>, Seq<u8>)> {
    edges.map_values(|e: (usize, usize, Seq<u8>)| (Some(e.0), Some(e.1), e.2))
}

proof fn lemma_triples_read_back(edges: Seq<(usize, usize, Seq<u8>)>)
    requires
        forall|k: int| 0 <= k < edges.len() ==> plain(#[trigger] edges[k].2),
    ensures
        triples_from(
            edges.map_values(
                |e: (usize, usize, Seq<u8>)| csv_fields(decimal(e.0 as nat), decimal(e.1 as nat), e.2),
            ),
        ) == read_back_edges(edges),
    decreases edges.len(),
{
    let inners = edges.map_values(
        |e: (usize, usize, Seq<u8>)| csv_fields(decimal(e.0 as nat), decimal(e.1 as nat), e.2),
    );
    if edges.len() > 0 {
        let init = edges.drop_last();
        assert forall|k: int| 0 <= k < init.len() implies plain(#[trigger] init[k].2) by {
            assert(init[k] == edges[k]);
        }
        lemma_triples_read_back(init);
        assert(inners.drop_last() =~= init.map_values(
            |e: (usize, usize, Seq<u8>)| csv_fields(decimal(e.0 as nat), decimal(e.1 as nat), e.2),
        ));
        let e = edges.last();
        assert(plain(edges[edges.len() - 1].2));
        let f = decimal(e.0 as nat);
        let t = decimal(e.1 as nat);
        lemma_decimal_plain(e.0 as nat);
        lemma_decimal_plain(e.1 as nat);
        lemma_plain_lacks(f);
        lemma_plain_lacks(t);
        lemma_plain_lacks(e.2);
        lemma_fields_split(f, t, e.2);
        lemma_trim_plain(f);
        lemma_trim_plain(t);
        lemma_trim_plain(e.2);
        lemma_parse_decimal(e.0 as nat, usize::MAX as nat);
        lemma_parse_decimal(e.1 as nat, usize::MAX as nat);
        assert(read_back_edges(init).push((Some(e.0), Some(e.1), e.2)) =~= read_back_edges(edges));
    } else {
        assert(read_back_edges(edges) =~= Seq::empty());
    }
}

/// Every room of the snapshot reads back, and its edge weight texts are plain.
pub open spec fn readable_snapshot(rooms: Seq<RoomSnapshotView>, edges: Seq<(usize, usize, Seq<u8>)>) -> bool {
    &&& forall|k: int| 0 <= k < rooms.len() ==> readable_room(#[trigger] rooms[k])
    &&& forall|k: int| 0 <= k < edges.len() ==> plain(#[trigger] edges[k].2)
}

/// A snapshot's text around its joined rooms and edges.
pub open spec fn snapshot_frame(tick: u64, rj: Seq<u8>, ej: Seq<u8>) -> Seq<u8> {
    lit("{\"tick\":") + decimal(tick as nat) + lit(",\"rooms\":[") + rj + lit("],\"edges\":[") + ej
        + lit("]}")
}

#[verifier::spinoff_prover]
#[verifier::rlimit(40)]
proof fn lemma_frame_tick(tick: u64, rj: Seq<u8>, ej: Seq<u8>)
    ensures
        find(snapshot_frame(tick, rj, ej), lit("\"tick\":")) == Some(1int),
        ({
            let rest = snapshot_frame(tick, rj, ej).skip(8);
            parse_unsigned(trim(rest.take(first_of(rest, 44, 44))), u64::MAX as nat) == Some(tick as nat)
        }),
        ({
            let q = 9 + decimal(tick as nat).len() as int;
            find(snapshot_frame(tick, rj, ej), lit("\"rooms\":[")) == Some(q)
                && snapshot_frame(tick, rj, ej).skip(q + 9) == rj + (lit("],\"edges\":[") + ej + lit("]}"))
        }),
{
    lemma_snapshot_lits();
    let dt = decimal(tick as nat);
    lemma_decimal_plain(tick as nat);
    lemma_parse_decimal(tick as nat, u64::MAX as nat);
    lemma_trim_plain(dt);
    lemma_plain_lacks(dt);
    let l2 = lit(",\"rooms\":[");
    let l3 = lit("],\"edges\":[");
    let l4 = lit("]}");
    let s = snapshot_frame(tick, rj, ej);
    let nt = lit("\"tick\":");
    assert(s.subrange(1, 8) =~= nt);
    lemma_find_is(s, nt, 1);
    let rest = s.skip(8);
    assert(rest =~= dt + (l2 + rj + l3 + ej + l4));
    lemma_first_of_concat(dt, l2 + rj + l3 + ej + l4, 44, 44, 0);
    assert(rest.take(dt.len() as int) =~= dt);
    let nrm = lit("\"rooms\":[");
    let q = 9 + dt.len() as int;
    assert(s.subrange(q, q + 9) =~= nrm);
    assert forall|j: int| #![trigger s[j]] 0 <= j < q implies s[j] != nrm[0] || s[j + 1] != nrm[1] by {
        if 8 <= j < 8 + dt.len() {
            assert(s[j] == dt[j - 8]);
        }
    }
    lemma_find_is(s, nrm, q);
    assert(s.skip(q + 9) =~= rj + (l3 + ej + l4));
}

#[verifier::spinoff_prover]
#[verifier::rlimit(40)]
proof fn lemma_frame_edges(tick: u64, rj: Seq<u8>, ej: Seq<u8>)
    requires
        quotes_not_before(rj, 101),
    ensures
        ({
            let b = 9 + decimal(tick as nat).len() + 9 + rj.len() + 2int;
            find(snapshot_frame(tick, rj, ej), lit("\"edges\":[")) == Some(b)
                && snapshot_frame(tick, rj, ej).skip(b + 9) == ej + lit("]}")
        }),
{
    lemma_snapshot_lits();
    let dt = decimal(tick as nat);
    lemma_decimal_plain(tick as nat);
    lemma_plain_lacks(dt);
    let s = snapshot_frame(tick, rj, ej);
    let q = 9 + dt.len() as int;
    let ne = lit("\"edges\":[");
    let b = q + 9 + rj.len() + 2;
    assert(s.subrange(b, b + 9) =~= ne);
    assert forall|j: int| #![trigger s[j]] 0 <= j < b implies s[j] != ne[0] || s[j + 1] != ne[1] by {
        if 8 <= j < 8 + dt.len() {
            assert(s[j] == dt[j - 8]);
        } else if q + 9 <= j < q + 9 + rj.len() {
            assert(s[j] == rj[j - q - 9]);
            if s[j] == 34 {
                assert(s[j + 1] == rj[j + 1 - q - 9]);
            }
        }
    }
    lemma_find_is(s, ne, b);
    assert(s.skip(b + 9) =~= ej + lit("]}"));
}

/// Snapshot and restore with JEPA state: reading back a snapshot's text gives
/// its tick, its rooms with ids, numbers, readings and weights, and its edges,
/// whenever the rooms' vibe and surprise texts are `f64` texts, their ids are
/// at most `index_limit()`, and every other number text is plain, the weights'
/// not empty (as `f64`'s `Display` writes all of them).
#[verifier::spinoff_prover]
#[verifier::rlimit(80)]
pub proof fn lemma_snapshot_json_roundtrip(
    tick: u64,
    rooms: Seq<RoomSnapshotView>,
    edges: Seq<(usize, usize, Seq<u8>)>,
)
    requires
        readable_snapshot(rooms, edges),
    ensures
        snapshot_from_json(snapshot_json(tick, rooms, edges)) == Ok::<_, crate::snapshot::format::SnapshotFault>(
            (tick, rooms.map_values(|r: RoomSnapshotView| read_back_room(r)), read_back_edges(edges)),
        ),
{
    lemma_snapshot_lits();
    let ri = rooms.map_values(|r: RoomSnapshotView| room_snapshot_json(r));
    let ei = edges.map_values(|e: (usize, usize, Seq<u8>)| triple_json(e));
    assert forall|k: int| 0 <= k < ri.len() implies balanced(#[trigger] ri[k], 91, 93) && quotes_not_before(ri[k], 101) by {
        assert(readable_room(rooms[k]));
        lemma_readable_room_plain(rooms[k]);
        lemma_room_snapshot_json_shape(rooms[k]);
    }
    assert forall|k: int| 0 <= k < ei.len() implies braced(#[trigger] ei[k], 91, 93) && balanced(ei[k], 91, 93)
        && ei[k].subrange(1, ei[k].len() - 1) == csv_fields(decimal(edges[k].0 as nat), decimal(edges[k].1 as nat), edges[k].2) by {
        assert(plain(edges[k].2));
        lemma_triple_json_shape(edges[k]);
    }
    lemma_join_balanced(ri, 91, 93);
    lemma_join_quotes(ri, 101);
    lemma_join_balanced(ei, 91, 93);
    lemma_group_contents_of_join(ei, 91, 93);
    assert(ei.map_values(|x: Seq<u8>| x.subrange(1, x.len() - 1)) =~= edges.map_values(
        |e: (usize, usize, Seq<u8>)| csv_fields(decimal(e.0 as nat), decimal(e.1 as nat), e.2),
    ));
    lemma_triples_read_back(edges);
    let rj = join_commas(ri);
    let ej = join_commas(ei);
    let s = snapshot_json(tick, rooms, edges);
    assert(s == snapshot_frame(tick, rj, ej));
    lemma_frame_tick(tick, rj, ej);
    lemma_frame_edges(tick, rj, ej);
    lemma_close_after_balanced(rj, lit("],\"edges\":[") + ej + lit("]}"), 91, 93);
    assert((rj + (lit("],\"edges\":[") + ej + lit("]}"))).take(rj.len() as int) =~= rj);
    assert(rj.skip(0) =~= rj);
    lemma_rooms_scan_join(rj, 0, rooms);
    lemma_close_after_balanced(ej, lit("]}"), 91, 93);
    assert((ej + lit("]}")).take(ej.len() as int) =~= ej);
}

} // verus!
