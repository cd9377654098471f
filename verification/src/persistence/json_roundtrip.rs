//! The JSON format reads back what it writes.
use vstd::prelude::*;

use crate::persistence::json::{
    edge_from_object, edge_json, edges_from_objects, graph_from_json, graph_json, key_needle,
    objects, room_from_object, room_json, rooms_from_objects, value_text,
};
use crate::text::{
    braced, join_commas, lemma_groups_of_join, decimal, lemma_close_after_flat,
    lemma_decimal_plain, lemma_find_is, lemma_first_of_concat, lemma_parse_decimal,
    lemma_trim_plain, lit, plain, plain_byte,
};

use crate::float_text::{
    index_limit, is_float_text, lemma_decimal_float, lemma_float_text_plain, IndexValue,
};

verus! {

proof fn lemma_json_lits()
    ensures
        lit("{\"id\":") == seq![123u8, 34u8, 105u8, 100u8, 34u8, 58u8],
        lit(",\"vibe\":") == seq![44u8, 34u8, 118u8, 105u8, 98u8, 101u8, 34u8, 58u8],
        lit(",\"surprise\":") == seq![44u8, 34u8, 115u8, 117u8, 114u8, 112u8, 114u8, 105u8, 115u8, 101u8, 34u8, 58u8],
        lit("}") == seq![125u8],
        lit("{\"from\":") == seq![123u8, 34u8, 102u8, 114u8, 111u8, 109u8, 34u8, 58u8],
        lit(",\"to\":") == seq![44u8, 34u8, 116u8, 111u8, 34u8, 58u8],
        lit(",\"weight\":") == seq![44u8, 34u8, 119u8, 101u8, 105u8, 103u8, 104u8, 116u8, 34u8, 58u8],
        lit("{\"rooms\":[") == seq![123u8, 34u8, 114u8, 111u8, 111u8, 109u8, 115u8, 34u8, 58u8, 91u8],
        lit("],\"edges\":[") == seq![93u8, 44u8, 34u8, 101u8, 100u8, 103u8, 101u8, 115u8, 34u8, 58u8, 91u8],
        lit("]}") == seq![93u8, 125u8],
        lit("\"rooms\":[") == seq![34u8, 114u8, 111u8, 111u8, 109u8, 115u8, 34u8, 58u8, 91u8],
        lit("\"edges\":[") == seq![34u8, 101u8, 100u8, 103u8, 101u8, 115u8, 34u8, 58u8, 91u8],
        lit("id") == seq![105u8, 100u8],
        lit("vibe") == seq![118u8, 105u8, 98u8, 101u8],
        lit("surprise") == seq![115u8, 117u8, 114u8, 112u8, 114u8, 105u8, 115u8, 101u8],
        lit("from") == seq![102u8, 114u8, 111u8, 109u8],
        lit("to") == seq![116u8, 111u8],
        lit("weight") == seq![119u8, 101u8, 105u8, 103u8, 104u8, 116u8],
{
    reveal_strlit("{\"id\":");
    reveal_strlit(",\"vibe\":");
    reveal_strlit(",\"surprise\":");
    reveal_strlit("}");
    reveal_strlit("{\"from\":");
    reveal_strlit(",\"to\":");
    reveal_strlit(",\"weight\":");
    reveal_strlit("{\"rooms\":[");
    reveal_strlit("],\"edges\":[");
    reveal_strlit("]}");
    reveal_strlit("\"rooms\":[");
    reveal_strlit("\"edges\":[");
    reveal_strlit("id");
    reveal_strlit("vibe");
    reveal_strlit("surprise");
    reveal_strlit("from");
    reveal_strlit("to");
    reveal_strlit("weight");
    assert(lit("{\"id\":") =~= seq![123u8, 34u8, 105u8, 100u8, 34u8, 58u8]);
    assert(lit(",\"vibe\":") =~= seq![44u8, 34u8, 118u8, 105u8, 98u8, 101u8, 34u8, 58u8]);
    assert(lit(",\"surprise\":") =~= seq![44u8, 34u8, 115u8, 117u8, 114u8, 112u8, 114u8, 105u8, 115u8, 101u8, 34u8, 58u8]);
    assert(lit("}") =~= seq![125u8]);
    assert(lit("{\"from\":") =~= seq![123u8, 34u8, 102u8, 114u8, 111u8, 109u8, 34u8, 58u8]);
    assert(lit(",\"to\":") =~= seq![44u8, 34u8, 116u8, 111u8, 34u8, 58u8]);
    assert(lit(",\"weight\":") =~= seq![44u8, 34u8, 119u8, 101u8, 105u8, 103u8, 104u8, 116u8, 34u8, 58u8]);
    assert(lit("{\"rooms\":[") =~= seq![123u8, 34u8, 114u8, 111u8, 111u8, 109u8, 115u8, 34u8, 58u8, 91u8]);
    assert(lit("],\"edges\":[") =~= seq![93u8, 44u8, 34u8, 101u8, 100u8, 103u8, 101u8, 115u8, 34u8, 58u8, 91u8]);
    assert(lit("]}") =~= seq![93u8, 125u8]);
    assert(lit("\"rooms\":[") =~= seq![34u8, 114u8, 111u8, 111u8, 109u8, 115u8, 34u8, 58u8, 91u8]);
    assert(lit("\"edges\":[") =~= seq![34u8, 101u8, 100u8, 103u8, 101u8, 115u8, 34u8, 58u8, 91u8]);
    assert(lit("id") =~= seq![105u8, 100u8]);
    assert(lit("vibe") =~= seq![118u8, 105u8, 98u8, 101u8]);
    assert(lit("surprise") =~= seq![115u8, 117u8, 114u8, 112u8, 114u8, 105u8, 115u8, 101u8]);
    assert(lit("from") =~= seq![102u8, 114u8, 111u8, 109u8]);
    assert(lit("to") =~= seq![116u8, 111u8]);
    assert(lit("weight") =~= seq![119u8, 101u8, 105u8, 103u8, 104u8, 116u8]);
}

/// The value of `key` in `pre + "key":` + `v` + `post` is `v`, when no
/// earlier `"` is followed by the key's first byte, `v` is plain, and `post`
/// starts with `,` or `}`.
pub proof fn lemma_value_text_at(obj: Seq<u8>, key: Seq<u8>, pre: Seq<u8>, v: Seq<u8>, post: Seq<u8>)
    requires
        obj == pre + key_needle(key) + v + post,
        key.len() > 0,
        key[0] != 34,
        forall|j: int| #![trigger pre[j]] 0 <= j < pre.len() - 1 && pre[j] == 34 ==> pre[j + 1] != key[0],
        plain(v),
        post.len() > 0,
        post[0] == 44 || post[0] == 125,
    ensures
        value_text(obj, key) == Some(v),
{
    let n = key_needle(key);
    let p = pre.len() as int;
    assert(obj.subrange(p, p + n.len()) =~= n);
    assert forall|j: int| #![trigger obj[j]] 0 <= j < p implies obj[j] != n[0] || obj[j + 1] != n[1] by {
        assert(obj[j] == pre[j]);
        if j < p - 1 {
            assert(obj[j + 1] == pre[j + 1]);
        }
    }
    lemma_find_is(obj, n, p);
    let rest = obj.skip(p + n.len());
    assert(rest =~= v + post);
    assert forall|i: int| 0 <= i < v.len() implies v[i] != 44 && v[i] != 125 by {
        assert(plain_byte(v[i]));
    }
    lemma_first_of_concat(v, post, 44, 125, 0);
    assert(rest.take(v.len() as int) =~= v);
    lemma_trim_plain(v);
}

/// A room written as JSON holds its id's decimal digits and its vibe and
/// surprise texts as the values of `"id"`, `"vibe"` and `"surprise"`, and
/// reads back as the room at that position.
#[verifier::spinoff_prover]
#[verifier::rlimit(40)]
pub proof fn lemma_room_object(r: (usize, Seq<u8>, Seq<u8>), index: int)
    requires
        is_float_text(r.1),
        is_float_text(r.2),
    ensures
        value_text(room_json(r), lit("id")) == Some(decimal(r.0 as nat)),
        value_text(room_json(r), lit("vibe")) == Some(r.1),
        value_text(room_json(r), lit("surprise")) == Some(r.2),
        room_from_object(room_json(r), index) == Ok::<_, crate::persistence::json::JsonFault>(
            (index as usize, r.1, r.2),
        ),
{
    lemma_json_lits();
    lemma_float_text_plain(r.1);
    lemma_float_text_plain(r.2);
    let d = decimal(r.0 as nat);
    lemma_decimal_plain(r.0 as nat);
    lemma_decimal_float(r.0 as nat);
    lemma_trim_plain(d);
    let obj = room_json(r);
    let a = seq![123u8];
    let tail_id = seq![44u8, 34u8, 118u8, 105u8, 98u8, 101u8, 34u8, 58u8] + r.1 + lit(",\"surprise\":") + r.2 + lit("}");
    assert(obj =~= a + key_needle(lit("id")) + d + tail_id);
    lemma_value_text_at(obj, lit("id"), a, d, tail_id);

    let pre_v = lit("{\"id\":") + d + seq![44u8];
    let tail_v = lit(",\"surprise\":") + r.2 + lit("}");
    assert(obj =~= pre_v + key_needle(lit("vibe")) + r.1 + tail_v);
    assert forall|j: int| #![trigger pre_v[j]] 0 <= j < pre_v.len() - 1 && pre_v[j] == 34 implies pre_v[j + 1] != 118 by {
        if 6 <= j < 6 + d.len() {
            assert(plain_byte(d[j - 6]));
        }
        if 6 <= j + 1 < 6 + d.len() {
            assert(plain_byte(d[j + 1 - 6]));
        }
    }
    lemma_value_text_at(obj, lit("vibe"), pre_v, r.1, tail_v);

    let pre_s = lit("{\"id\":") + d + lit(",\"vibe\":") + r.1 + seq![44u8];
    let tail_s = lit("}");
    assert(obj =~= pre_s + key_needle(lit("surprise")) + r.2 + tail_s);
    assert forall|j: int| #![trigger pre_s[j]] 0 <= j < pre_s.len() - 1 && pre_s[j] == 34 implies pre_s[j + 1] != 115 by {
        if 6 <= j < 6 + d.len() {
            assert(plain_byte(d[j - 6]));
        }
        if 14 + d.len() <= j < 14 + d.len() + r.1.len() {
            assert(plain_byte(r.1[j - 14 - d.len()]));
        }
    }
    lemma_value_text_at(obj, lit("surprise"), pre_s, r.2, tail_s);
}

/// An edge written as JSON holds its endpoints' decimal digits and its weight
/// text as the values of `"from"`, `"to"` and `"weight"`, and reads back as
/// that edge.
#[verifier::spinoff_prover]
#[verifier::rlimit(40)]
pub proof fn lemma_edge_object(e: (usize, usize, Seq<u8>))
    requires
        is_float_text(e.2),
        e.0 <= index_limit(),
        e.1 <= index_limit(),
    ensures
        value_text(edge_json(e), lit("from")) == Some(decimal(e.0 as nat)),
        value_text(edge_json(e), lit("to")) == Some(decimal(e.1 as nat)),
        value_text(edge_json(e), lit("weight")) == Some(e.2),
        edge_from_object(edge_json(e)) == Ok::<_, crate::persistence::json::JsonFault>(exact_edge(e)),
{
    lemma_json_lits();
    let f = decimal(e.0 as nat);
    let t = decimal(e.1 as nat);
    lemma_decimal_plain(e.0 as nat);
    lemma_decimal_plain(e.1 as nat);
    lemma_float_text_plain(e.2);
    lemma_decimal_float(e.0 as nat);
    lemma_decimal_float(e.1 as nat);
    lemma_parse_decimal(e.0 as nat, index_limit());
    lemma_parse_decimal(e.1 as nat, index_limit());
    lemma_trim_plain(f);
    lemma_trim_plain(t);
    let obj = edge_json(e);

    let a = seq![123u8];
    let tail_f = lit(",\"to\":") + t + lit(",\"weight\":") + e.2 + lit("}");
    assert(obj =~= a + key_needle(lit("from")) + f + tail_f);
    lemma_value_text_at(obj, lit("from"), a, f, tail_f);

    let pre_t = lit("{\"from\":") + f + seq![44u8];
    let tail_t = lit(",\"weight\":") + e.2 + lit("}");
    assert(obj =~= pre_t + key_needle(lit("to")) + t + tail_t);
    assert forall|j: int| #![trigger pre_t[j]] 0 <= j < pre_t.len() - 1 && pre_t[j] == 34 implies pre_t[j + 1] != 116 by {
        if 8 <= j < 8 + f.len() {
            assert(plain_byte(f[j - 8]));
        }
        if 8 <= j + 1 < 8 + f.len() {
            assert(plain_byte(f[j + 1 - 8]));
        }
    }
    lemma_value_text_at(obj, lit("to"), pre_t, t, tail_t);

    let pre_w = lit("{\"from\":") + f + lit(",\"to\":") + t + seq![44u8];
    let tail_w = lit("}");
    assert(obj =~= pre_w + key_needle(lit("weight")) + e.2 + tail_w);
    assert forall|j: int| #![trigger pre_w[j]] 0 <= j < pre_w.len() - 1 && pre_w[j] == 34 implies pre_w[j + 1] != 119 by {
        if 8 <= j < 8 + f.len() {
            assert(plain_byte(f[j - 8]));
        }
        if 8 <= j + 1 < 8 + f.len() {
            assert(plain_byte(f[j + 1 - 8]));
        }
        if 14 + f.len() <= j < 14 + f.len() + t.len() {
            assert(plain_byte(t[j - 14 - f.len()]));
        }
        if 14 + f.len() <= j + 1 < 14 + f.len() + t.len() {
            assert(plain_byte(t[j + 1 - 14 - f.len()]));
        }
    }
    lemma_value_text_at(obj, lit("weight"), pre_w, e.2, tail_w);
}

/// The top-level objects of braced items joined by commas are those items.
pub proof fn lemma_objects_join(items: Seq<Seq<u8>>)
    requires
        forall|k: int| 0 <= k < items.len() ==> braced(#[trigger] items[k], 123, 125),
    ensures
        objects(join_commas(items)) == items,
{
    lemma_groups_of_join(items, 123, 125);
    let j = join_commas(items);
    assert(objects(j) =~= items);
}

/// No `[` or `]` in `x`.
pub open spec fn no_brackets(x: Seq<u8>) -> bool {
    forall|i: int| 0 <= i < x.len() ==> #[trigger] x[i] != 91 && x[i] != 93
}

/// Every `"` in `x` is followed, inside `x`, by a byte other than `c`.
pub open spec fn quotes_not_before(x: Seq<u8>, c: u8) -> bool {
    forall|j: int| 0 <= j < x.len() && #[trigger] x[j] == 34 ==> j + 1 < x.len() && x[j + 1] != c
}

/// Joining keeps the absence of brackets and of `"` before `c`.
pub proof fn lemma_join_shape(items: Seq<Seq<u8>>, c: u8)
    requires
        c != 44,
        forall|k: int| 0 <= k < items.len() ==> no_brackets(#[trigger] items[k]),
        forall|k: int| 0 <= k < items.len() ==> quotes_not_before(#[trigger] items[k], c),
    ensures
        no_brackets(join_commas(items)),
        quotes_not_before(join_commas(items), c),
    decreases items.len(),
{
    if items.len() == 1 {
        assert(no_brackets(items[0]));
        assert(quotes_not_before(items[0], c));
    } else if items.len() > 1 {
        let init = items.drop_last();
        assert forall|k: int| 0 <= k < init.len() implies no_brackets(#[trigger] init[k])
            && quotes_not_before(init[k], c) by {
            assert(init[k] == items[k]);
        }
        lemma_join_shape(init, c);
        let last = items.last();
        assert(no_brackets(items[items.len() - 1]));
        assert(quotes_not_before(items[items.len() - 1], c));
        let ji = join_commas(init);
        let j = join_commas(items);
        assert(j == ji + seq![44u8] + last);
        assert forall|i: int| 0 <= i < j.len() implies #[trigger] j[i] != 91 && j[i] != 93 by {
            if i < ji.len() {
                assert(j[i] == ji[i]);
            } else if i > ji.len() {
                assert(j[i] == last[i - ji.len() - 1]);
            }
        }
        assert forall|i: int| 0 <= i < j.len() && #[trigger] j[i] == 34 implies i + 1 < j.len()
            && j[i + 1] != c by {
            if i < ji.len() {
                assert(j[i] == ji[i]);
                if i + 1 < ji.len() {
                    assert(j[i + 1] == ji[i + 1]);
                }
            } else if i > ji.len() {
                assert(j[i] == last[i - ji.len() - 1]);
                assert(j[i + 1] == last[i + 1 - ji.len() - 1]);
            }
        }
    }
}

proof fn lemma_room_json_shape(r: (usize, Seq<u8>, Seq<u8>))
    requires
        plain(r.1),
        plain(r.2),
    ensures
        braced(room_json(r), 123, 125),
        no_brackets(room_json(r)),
        quotes_not_before(room_json(r), 101),
{
    lemma_json_lits();
    let d = decimal(r.0 as nat);
    lemma_decimal_plain(r.0 as nat);
    let x = room_json(r);
    let n1 = 6 + d.len();
    let n2 = n1 + 8 + r.1.len();
    let n3 = n2 + 12 + r.2.len();
    assert(x.len() == n3 + 1);
    assert forall|i: int| 0 <= i < x.len() implies #[trigger] x[i] != 91 && x[i] != 93 && (1 <= i
        < x.len() - 1 ==> x[i] != 123 && x[i] != 125) && (x[i] == 34 ==> i + 1 < x.len() && x[i
        + 1] != 101) by {
        if 6 <= i < n1 {
            assert(plain_byte(d[i - 6]));
        } else if n1 + 8 <= i < n2 {
            assert(plain_byte(r.1[i - n1 - 8]));
        } else if n2 + 12 <= i < n3 {
            assert(plain_byte(r.2[i - n2 - 12]));
        }
    }
}

proof fn lemma_edge_json_shape(e: (usize, usize, Seq<u8>))
    requires
        plain(e.2),
    ensures
        braced(edge_json(e), 123, 125),
        no_brackets(edge_json(e)),
        quotes_not_before(edge_json(e), 101),
{
    lemma_json_lits();
    let f = decimal(e.0 as nat);
    let t = decimal(e.1 as nat);
    lemma_decimal_plain(e.0 as nat);
    lemma_decimal_plain(e.1 as nat);
    let x = edge_json(e);
    let n1 = 8 + f.len();
    let n2 = n1 + 6 + t.len();
    let n3 = n2 + 10 + e.2.len();
    assert(x.len() == n3 + 1);
    assert forall|i: int| 0 <= i < x.len() implies #[trigger] x[i] != 91 && x[i] != 93 && (1 <= i
        < x.len() - 1 ==> x[i] != 123 && x[i] != 125) && (x[i] == 34 ==> i + 1 < x.len() && x[i
        + 1] != 101) by {
        if 8 <= i < n1 {
            assert(plain_byte(f[i - 8]));
        } else if n1 + 6 <= i < n2 {
            assert(plain_byte(t[i - n1 - 6]));
        } else if n2 + 10 <= i < n3 {
            assert(plain_byte(e.2[i - n2 - 10]));
        }
    }
}

/// An edge as the JSON text reads it back: its endpoints as exact indices.
pub open spec fn exact_edge(e: (usize, usize, Seq<u8>)) -> (IndexValue, IndexValue, Seq<u8>) {
    (IndexValue::Exact(e.0), IndexValue::Exact(e.1), e.2)
}

pub open spec fn exact_edges(edges: Seq<(usize, usize, Seq<u8>)>) -> Seq<(IndexValue, IndexValue, Seq<u8>)> {
    edges.map_values(|e: (usize, usize, Seq<u8>)| exact_edge(e))
}

/// The rooms a JSON text reads back as: the rooms written, numbered by position.
pub open spec fn renumbered_text(rooms: Seq<(usize, Seq<u8>, Seq<u8>)>) -> Seq<(usize, Seq<u8>, Seq<u8>)> {
    Seq::new(rooms.len(), |i: int| (i as usize, rooms[i].1, rooms[i].2))
}

/// The texts of the rooms' and edges' numbers are texts of `f64` values (as
/// `f64`'s `Display` writes them), and edge endpoints are at most
/// `index_limit()`.
pub open spec fn readable_numbers(
    rooms: Seq<(usize, Seq<u8>, Seq<u8>)>,
    edges: Seq<(usize, usize, Seq<u8>)>,
) -> bool {
    &&& forall|i: int| 0 <= i < rooms.len() ==> is_float_text(#[trigger] rooms[i].1) && is_float_text(rooms[i].2)
    &&& forall|i: int| 0 <= i < edges.len() ==> readable_edge(#[trigger] edges[i])
}

/// An edge whose weight is an `f64` text and whose endpoints read back.
pub open spec fn readable_edge(e: (usize, usize, Seq<u8>)) -> bool {
    is_float_text(e.2) && e.0 <= index_limit() && e.1 <= index_limit()
}

proof fn lemma_rooms_read_back(rooms: Seq<(usize, Seq<u8>, Seq<u8>)>)
    requires
        forall|i: int| 0 <= i < rooms.len() ==> is_float_text(#[trigger] rooms[i].1) && is_float_text(rooms[i].2),
    ensures
        rooms_from_objects(rooms.map_values(|r: (usize, Seq<u8>, Seq<u8>)| room_json(r)))
            == Ok::<_, crate::persistence::json::JsonFault>(renumbered_text(rooms)),
    decreases rooms.len(),
{
    let items = rooms.map_values(|r: (usize, Seq<u8>, Seq<u8>)| room_json(r));
    if rooms.len() > 0 {
        let init = rooms.drop_last();
        assert forall|i: int| 0 <= i < init.len() implies is_float_text(#[trigger] init[i].1) && is_float_text(
            init[i].2,
        ) by {
            assert(init[i] == rooms[i]);
        }
        lemma_rooms_read_back(init);
        assert(items.drop_last() =~= init.map_values(|r: (usize, Seq<u8>, Seq<u8>)| room_json(r)));
        let last = rooms.last();
        assert(is_float_text(rooms[rooms.len() - 1].1) && is_float_text(rooms[rooms.len() - 1].2));
        lemma_room_object(last, rooms.len() - 1);
        assert(renumbered_text(init).push((((rooms.len() - 1) as int) as usize, last.1, last.2))
            =~= renumbered_text(rooms));
    } else {
        assert(renumbered_text(rooms) =~= Seq::empty());
    }
}

proof fn lemma_edges_read_back(edges: Seq<(usize, usize, Seq<u8>)>)
    requires
        forall|i: int| 0 <= i < edges.len() ==> readable_edge(#[trigger] edges[i]),
    ensures
        edges_from_objects(edges.map_values(|e: (usize, usize, Seq<u8>)| edge_json(e)))
            == Ok::<_, crate::persistence::json::JsonFault>(exact_edges(edges)),
    decreases edges.len(),
{
    let items = edges.map_values(|e: (usize, usize, Seq<u8>)| edge_json(e));
    if edges.len() > 0 {
        let init = edges.drop_last();
        assert forall|i: int| 0 <= i < init.len() implies readable_edge(#[trigger] init[i]) by {
            assert(init[i] == edges[i]);
        }
        lemma_edges_read_back(init);
        assert(items.drop_last() =~= init.map_values(|e: (usize, usize, Seq<u8>)| edge_json(e)));
        assert(readable_edge(edges[edges.len() - 1]));
        lemma_edge_object(edges.last());
        assert(exact_edges(init).push(exact_edge(edges.last())) =~= exact_edges(edges));
    } else {
        assert(exact_edges(edges) =~= Seq::empty());
    }
}

/// Save and restore: reading back the JSON text of a graph gives its rooms in
/// order, numbered by position, with the same number texts, and its edges
/// with the same endpoints, as exact indices, and weight texts, whenever every
/// number text is an `f64` text (as `f64`'s `Display` writes) and the
/// endpoints are at most `index_limit()`.
#[verifier::spinoff_prover]
#[verifier::rlimit(40)]
pub proof fn lemma_json_roundtrip(
    rooms: Seq<(usize, Seq<u8>, Seq<u8>)>,
    edges: Seq<(usize, usize, Seq<u8>)>,
)
    requires
        readable_numbers(rooms, edges),
    ensures
        graph_from_json(graph_json(rooms, edges)) == Ok::<_, crate::persistence::json::JsonFault>(
            (renumbered_text(rooms), exact_edges(edges)),
        ),
{
    lemma_json_lits();
    let ri = rooms.map_values(|r: (usize, Seq<u8>, Seq<u8>)| room_json(r));
    let ei = edges.map_values(|e: (usize, usize, Seq<u8>)| edge_json(e));
    assert forall|k: int| 0 <= k < ri.len() implies braced(#[trigger] ri[k], 123, 125) && no_brackets(ri[k])
        && quotes_not_before(ri[k], 101) by {
        lemma_float_text_plain(rooms[k].1);
        lemma_float_text_plain(rooms[k].2);
        lemma_room_json_shape(rooms[k]);
    }
    assert forall|k: int| 0 <= k < ei.len() implies braced(#[trigger] ei[k], 123, 125) && no_brackets(ei[k])
        && quotes_not_before(ei[k], 101) by {
        assert(readable_edge(edges[k]));
        lemma_float_text_plain(edges[k].2);
        lemma_edge_json_shape(edges[k]);
    }
    lemma_join_shape(ri, 101);
    lemma_join_shape(ei, 101);
    lemma_objects_join(ri);
    lemma_objects_join(ei);
    lemma_rooms_read_back(rooms);
    lemma_edges_read_back(edges);
    let r = join_commas(ri);
    let e = join_commas(ei);
    let l1 = lit("{\"rooms\":[");
    let l2 = lit("],\"edges\":[");
    let l3 = lit("]}");
    let s = graph_json(rooms, edges);
    assert(s == l1 + r + l2 + e + l3);

    // the rooms array
    let rk = lit("\"rooms\":[");
    assert(s.subrange(1, 10) =~= rk);
    lemma_find_is(s, rk, 1);
    assert(s.skip(10) =~= r + (l2 + e + l3));
    lemma_close_after_flat(r, l2 + e + l3, 91, 93);
    assert(s.subrange(10, 10 + r.len() as int) =~= r);

    // the edges array
    let ek = lit("\"edges\":[");
    let q = 12 + r.len() as int;
    assert(s.subrange(q, q + 9) =~= ek);
    assert forall|j: int| #![trigger s[j]] 0 <= j < q implies s[j] != ek[0] || s[j + 1] != ek[1] by {
        if 10 <= j < 10 + r.len() {
            assert(s[j] == r[j - 10]);
            if s[j] == 34 {
                assert(s[j + 1] == r[j + 1 - 10]);
            }
        }
    }
    lemma_find_is(s, ek, q);
    let b = q + 9;
    assert(s.skip(b) =~= e + l3);
    lemma_close_after_flat(e, l3, 91, 93);
    assert(s.subrange(b, b + e.len() as int) =~= e);
}

} // verus!
