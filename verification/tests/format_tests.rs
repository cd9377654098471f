use grand_pattern_store::float_text::{check_float_text, IndexText};
use grand_pattern_store::graph::{CellGraph, Edge, Room};
use grand_pattern_store::persistence::{
    decode_binary, encode_binary, find_array_end, json_get_text, json_get_usize, parse_json_graph,
    render_edges_csv, render_graph_json, render_rooms_csv, render_tick_history_csv, split_objects,
    BinaryError, EdgeText, GraphText, JsonError, RoomText, TickSummaryText,
};
use grand_pattern_store::snapshot::{
    find_obj_end, get_json_num_text, parse_room_snapshot, parse_snapshot, render_snapshot_json,
    ReadingText, RoomSnapshotText, Snapshot, SnapshotError, SnapshotText,
};
use grand_pattern_store::text::{parse_unsigned_bounded, trim_bytes};
use grand_pattern_store::tick_log::{parse_tick_line, render_tick_line, replay_log, TickLogError};

fn t(s: &str) -> Vec<u8> {
    s.as_bytes().to_vec()
}

fn s(b: &[u8]) -> String {
    String::from_utf8(b.to_vec()).unwrap()
}

// ─── graph ───

#[test]
fn add_room_numbers_rooms_by_position() {
    let mut g = CellGraph::default();
    assert!(g.rooms.is_empty() && g.edges.is_empty());
    assert_eq!(g.add_room(1, 2), 0);
    assert_eq!(g.add_room(3, 4), 1);
    g.add_edge(1, 0, 9);
    assert_eq!(g.rooms, vec![Room { id: 0, vibe: 1, surprise: 2 }, Room { id: 1, vibe: 3, surprise: 4 }]);
    assert_eq!(g.edges, vec![Edge { from: 1, to: 0, weight: 9 }]);
}

// ─── binary ───

#[test]
fn empty_graph_encodes_as_bare_header() {
    let bytes = encode_binary(&CellGraph::new());
    assert_eq!(bytes, b"GPAT\x00\x01\x00\x00\x00\x00\x00\x00\x00\x00".to_vec());
}

#[test]
fn encoding_length_is_header_plus_records() {
    let mut g = CellGraph::new();
    for i in 0..5u64 {
        g.add_room(i, i + 1);
    }
    for i in 0..7usize {
        g.add_edge(i, i + 1, 3);
    }
    assert_eq!(encode_binary(&g).len(), 14 + 20 * 5 + 16 * 7);
}

#[test]
fn room_record_layout_is_little_endian() {
    let mut g = CellGraph::new();
    g.add_room(0x0102030405060708, 0x1112131415161718);
    g.add_edge(0, 0x01020304, 0x2122232425262728);
    let b = encode_binary(&g);
    assert_eq!(&b[6..10], &[1, 0, 0, 0]);
    assert_eq!(&b[10..14], &[1, 0, 0, 0]);
    assert_eq!(&b[14..18], &[0, 0, 0, 0]);
    assert_eq!(&b[18..26], &[8, 7, 6, 5, 4, 3, 2, 1]);
    assert_eq!(&b[26..34], &[0x18, 0x17, 0x16, 0x15, 0x14, 0x13, 0x12, 0x11]);
    assert_eq!(&b[34..38], &[0, 0, 0, 0]);
    assert_eq!(&b[38..42], &[4, 3, 2, 1]);
    assert_eq!(&b[42..50], &[0x28, 0x27, 0x26, 0x25, 0x24, 0x23, 0x22, 0x21]);
}

#[test]
fn decoded_rooms_are_numbered_by_position() {
    // one room whose record claims id 7
    let mut b = b"GPAT\x00\x01\x01\x00\x00\x00\x00\x00\x00\x00".to_vec();
    b.extend_from_slice(&7u32.to_le_bytes());
    b.extend_from_slice(&5u64.to_le_bytes());
    b.extend_from_slice(&6u64.to_le_bytes());
    let g = decode_binary(&b).unwrap();
    assert_eq!(g.rooms, vec![Room { id: 0, vibe: 5, surprise: 6 }]);
}

#[test]
fn decoding_ignores_trailing_bytes_and_older_minor_versions() {
    let mut b = encode_binary(&CellGraph::new());
    b[5] = 9;
    b.extend_from_slice(b"junk");
    let g = decode_binary(&b).unwrap();
    assert!(g.rooms.is_empty() && g.edges.is_empty());
}

#[test]
fn binary_header_errors_in_order() {
    assert_eq!(decode_binary(b"").unwrap_err(), BinaryError::UnexpectedEof);
    assert_eq!(decode_binary(b"GPAX\x09").unwrap_err(), BinaryError::InvalidMagic);
    assert_eq!(decode_binary(b"GPAT\x00").unwrap_err(), BinaryError::UnexpectedEof);
    assert_eq!(
        decode_binary(b"GPAT\x01\x00").unwrap_err(),
        BinaryError::UnsupportedVersion { major: 1, minor: 0 }
    );
    assert_eq!(decode_binary(b"GPAT\x00\x01\x00\x00").unwrap_err(), BinaryError::UnexpectedEof);
    // one edge announced, fifteen of its sixteen bytes present
    let mut b = b"GPAT\x00\x01\x00\x00\x00\x00\x01\x00\x00\x00".to_vec();
    b.extend_from_slice(&[0u8; 15]);
    assert_eq!(decode_binary(&b).unwrap_err(), BinaryError::UnexpectedEof);
    b.push(0);
    assert_eq!(decode_binary(&b).unwrap().edges, vec![Edge { from: 0, to: 0, weight: 0 }]);
}

// ─── JSON ───

fn one_room_one_edge() -> GraphText {
    GraphText {
        rooms: vec![RoomText { id: 0, vibe: t("0.5"), surprise: t("0.1") }],
        edges: vec![EdgeText { from: 0, to: 12, weight: t("0.7") }],
    }
}

#[test]
fn json_text_is_exact() {
    let out = render_graph_json(&one_room_one_edge());
    assert_eq!(
        s(&out),
        "{\"rooms\":[{\"id\":0,\"vibe\":0.5,\"surprise\":0.1}],\"edges\":[{\"from\":0,\"to\":12,\"weight\":0.7}]}"
    );
    assert_eq!(s(&render_graph_json(&GraphText { rooms: vec![], edges: vec![] })), "{\"rooms\":[],\"edges\":[]}");
}

#[test]
fn json_reads_back_what_it_writes() {
    let g = one_room_one_edge();
    let back = parse_json_graph(&render_graph_json(&g)).unwrap();
    assert_eq!(back.rooms.len(), 1);
    assert_eq!(back.rooms[0].id, 0);
    assert_eq!(back.rooms[0].vibe, t("0.5"));
    assert_eq!(back.rooms[0].surprise, t("0.1"));
    assert_eq!(back.edges.len(), 1);
    assert_eq!(back.edges[0].from, IndexText::Exact(0));
    assert_eq!(back.edges[0].to, IndexText::Exact(12));
    assert_eq!(back.edges[0].weight, t("0.7"));
}

#[test]
fn json_room_ids_are_positions() {
    let text = b"{\"rooms\":[{\"id\":5,\"vibe\":1,\"surprise\":2},{\"id\":9,\"vibe\":3,\"surprise\":4}],\"edges\":[]}";
    let g = parse_json_graph(text).unwrap();
    assert_eq!(g.rooms[0].id, 0);
    assert_eq!(g.rooms[1].id, 1);
    assert_eq!(g.rooms[1].vibe, t("3"));
}

#[test]
fn json_errors_name_their_cause() {
    assert!(matches!(parse_json_graph(b"{}"), Err(JsonError::MissingRoomsArray)));
    assert!(matches!(parse_json_graph(b"{\"rooms\":[{}"), Err(JsonError::UnclosedRoomsArray)));
    assert!(matches!(parse_json_graph(b"{\"rooms\":[]}"), Err(JsonError::MissingEdgesArray)));
    assert!(matches!(parse_json_graph(b"{\"rooms\":[],\"edges\":["), Err(JsonError::UnclosedEdgesArray)));
    match parse_json_graph(b"{\"rooms\":[{\"id\":0,\"surprise\":1}],\"edges\":[]}") {
        Err(JsonError::MissingKey(k)) => assert_eq!(k, t("vibe")),
        other => panic!("unexpected {:?}", other),
    }
    match parse_json_graph(b"{\"rooms\":[{\"id\":x,\"vibe\":1,\"surprise\":1}],\"edges\":[]}") {
        Err(JsonError::InvalidNumber(k)) => assert_eq!(k, t("id")),
        other => panic!("unexpected {:?}", other),
    }
    match parse_json_graph(b"{\"rooms\":[],\"edges\":[{\"from\":0,\"to\":-x,\"weight\":1}]}") {
        Err(JsonError::InvalidNumber(k)) => assert_eq!(k, t("to")),
        other => panic!("unexpected {:?}", other),
    }
    // an endpoint that is a number but no plain index is handed out as its text
    let g = parse_json_graph(b"{\"rooms\":[],\"edges\":[{\"from\":+3,\"to\":-1.5e0,\"weight\":1}]}").unwrap();
    assert_eq!(g.edges[0].from, IndexText::Exact(3));
    assert_eq!(g.edges[0].to, IndexText::Float(t("-1.5e0")));
    // the room's fields are checked in order: a bad vibe before a missing surprise
    match parse_json_graph(b"{\"rooms\":[{\"id\":0,\"vibe\":1..2}],\"edges\":[]}") {
        Err(JsonError::InvalidNumber(k)) => assert_eq!(k, t("vibe")),
        other => panic!("unexpected {:?}", other),
    }
    // a room id only has to be a number
    let g = parse_json_graph(b"{\"rooms\":[{\"id\":-2.5e1,\"vibe\":NaN,\"surprise\":-inf}],\"edges\":[]}").unwrap();
    assert_eq!(g.rooms[0].id, 0);
    assert_eq!(g.rooms[0].vibe, t("NaN"));
}

#[test]
fn json_value_lookups() {
    let obj = b"{\"a\": +5 ,\"b\":\xe2\x80\x83 2.5\xc2\xa0}";
    assert_eq!(json_get_usize(obj, b"a").unwrap(), IndexText::Exact(5));
    assert_eq!(json_get_text(obj, b"b").unwrap(), b"2.5");
    assert_eq!(json_get_usize(obj, b"b").unwrap(), IndexText::Float(t("2.5")));
    assert!(matches!(json_get_text(b"{\"b\":1 2}", b"b"), Err(JsonError::InvalidNumber(_))));
    assert!(matches!(json_get_usize(obj, b"c"), Err(JsonError::MissingKey(_))));
    assert!(matches!(json_get_text(obj, b"c"), Err(JsonError::MissingKey(_))));
    assert_eq!(
        json_get_usize(b"{\"n\":99999999999999999999999}", b"n").unwrap(),
        IndexText::Float(t("99999999999999999999999"))
    );
    assert_eq!(json_get_usize(b"{\"n\":9007199254740992}", b"n").unwrap(), IndexText::Exact(9007199254740992));
    assert_eq!(
        json_get_usize(b"{\"n\":9007199254740993}", b"n").unwrap(),
        IndexText::Float(t("9007199254740993"))
    );
    assert!(matches!(json_get_usize(b"{\"n\":x}", b"n"), Err(JsonError::InvalidNumber(_))));
    // a value runs to the end when no `,` or `}` follows
    assert_eq!(json_get_text(b"\"k\":7 ", b"k").unwrap(), b"7");
}

#[test]
fn array_and_object_scanning() {
    assert_eq!(find_array_end(b"1,[2,3]],x"), Some(7));
    assert_eq!(find_array_end(b"]"), Some(0));
    assert_eq!(find_array_end(b"[[]]"), None);
    assert_eq!(find_obj_end(b"{a{b}c}d"), Some(6));
    assert_eq!(find_obj_end(b"{{}"), None);
    assert_eq!(find_obj_end(b"x}"), None);
    let objs = split_objects(b" {\"a\":{}} , x, {} }{");
    assert_eq!(objs, vec![&b"{\"a\":{}}"[..], &b"{}"[..]]);
}

#[test]
fn text_primitives() {
    assert_eq!(trim_bytes(b" \t\r\nab c\x0b"), b"ab c");
    assert_eq!(trim_bytes("\u{3000}x\u{2028}".as_bytes()), b"x");
    assert_eq!(trim_bytes(b"   "), b"");
    assert_eq!(parse_unsigned_bounded(b"+42", 100), Some(42));
    assert_eq!(parse_unsigned_bounded(b"101", 100), None);
    assert_eq!(parse_unsigned_bounded(b"+", 100), None);
    assert_eq!(parse_unsigned_bounded(b"", 100), None);
    assert_eq!(parse_unsigned_bounded(b"1 2", 100), None);
    assert_eq!(parse_unsigned_bounded(b"18446744073709551615", u64::MAX), Some(u64::MAX));
}

#[test]
fn float_texts_are_those_the_standard_parse_accepts() {
    let samples = [
        "0", "1", "1.", ".5", "+.5e-3", "1E5", "1e+05", "-0.0", "007", "inf", "-Infinity", "NaN",
        "+nan", "INF", "", ".", "e5", "1e", "1e+", "1.2.3", " 1", "1 ", "infinit", "infinityy",
        "0x10", "1_000", "--1", "+-1", "1e5e3", "nan1", "1.e3", ".e3", "1,5", "\u{661}",
        "18446744073709551616", "1e400", "0.1", "-2.5E-10",
    ];
    for x in samples {
        assert_eq!(check_float_text(x.as_bytes()), x.parse::<f64>().is_ok(), "{:?}", x);
    }
    for v in [0.1f64, -3.5, 1e-7, 1e300, f64::NAN, f64::INFINITY, f64::NEG_INFINITY, f64::MIN_POSITIVE] {
        assert!(check_float_text(format!("{}", v).as_bytes()));
    }
}

#[test]
fn unsigned_texts_are_those_the_standard_parse_accepts() {
    let samples = [
        "0", "7", "+7", "007", "", "+", "-0", "-1", " 1", "1 ", "1.0", "1e3", "18446744073709551615",
        "18446744073709551616", "+18446744073709551615", "99999999999999999999999", "0x1", "١",
    ];
    for x in samples {
        assert_eq!(parse_unsigned_bounded(x.as_bytes(), u64::MAX), x.parse::<u64>().ok(), "{:?}", x);
        assert_eq!(
            parse_unsigned_bounded(x.as_bytes(), u32::MAX as u64),
            x.parse::<u32>().ok().map(|v| v as u64),
            "{:?}",
            x
        );
    }
}

// ─── CSV ───

#[test]
fn csv_exports_are_exact() {
    let g = one_room_one_edge();
    assert_eq!(s(&render_rooms_csv(&g.rooms)), "id,vibe,surprise\n0,0.5,0.1\n");
    assert_eq!(s(&render_edges_csv(&g.edges)), "from,to,weight\n0,12,0.7\n");
    let h = vec![
        TickSummaryText { tick: 3, mean_vibe: t("0.25"), mean_surprise: t("1") },
        TickSummaryText { tick: 18446744073709551615, mean_vibe: t("NaN"), mean_surprise: t("-inf") },
    ];
    assert_eq!(
        s(&render_tick_history_csv(&h)),
        "tick,mean_vibe,mean_surprise\n3,0.25,1\n18446744073709551615,NaN,-inf\n"
    );
    assert_eq!(s(&render_rooms_csv(&[])), "id,vibe,surprise\n");
    assert_eq!(s(&render_edges_csv(&[])), "from,to,weight\n");
}

// ─── tick log ───

#[test]
fn tick_line_text_and_read_back() {
    let line = render_tick_line(7, &[t("0.5"), t("0.8")], &[t("0.1"), t("0.3")]);
    assert_eq!(s(&line), "7 2 0.5 0.8 0.1 0.3\n");
    let e = parse_tick_line(&line).unwrap().unwrap();
    assert_eq!(e.tick, 7);
    assert_eq!(e.rooms, vec![t("0.5"), t("0.8")]);
    assert_eq!(e.surprises, vec![t("0.1"), t("0.3")]);
    // an empty entry
    assert_eq!(s(&render_tick_line(0, &[], &[])), "0 0\n");
    let e = parse_tick_line(b"0 0\n").unwrap().unwrap();
    assert!(e.rooms.is_empty() && e.surprises.is_empty());
}

#[test]
fn tick_lines_that_are_skipped_or_refused() {
    assert!(parse_tick_line(b"").unwrap().is_none());
    assert!(parse_tick_line(b"  5  ").unwrap().is_none());
    assert!(parse_tick_line(b"5 2 1 2 3").unwrap().is_none());
    assert_eq!(parse_tick_line(b"x 0").unwrap_err(), TickLogError::BadTick);
    assert_eq!(parse_tick_line(b"-1 0").unwrap_err(), TickLogError::BadTick);
    assert_eq!(parse_tick_line(b"1 two").unwrap_err(), TickLogError::BadCount);
    assert_eq!(
        parse_tick_line(format!("1 {}", usize::MAX).as_bytes()).unwrap_err(),
        TickLogError::CountOverflow
    );
    assert_eq!(parse_tick_line(b"1 1 x 2").unwrap_err(), TickLogError::BadRoomValue);
    assert_eq!(parse_tick_line(b"1 1 2 inf. 3").unwrap_err(), TickLogError::BadSurpriseValue);
    // extra fields after the announced values are ignored, and tabs separate too
    let e = parse_tick_line(b"+9\t1 1.5 -2E3 c").unwrap().unwrap();
    assert_eq!((e.tick, e.rooms, e.surprises), (9, vec![t("1.5")], vec![t("-2E3")]));
}

#[test]
fn replay_reads_appended_lines_in_order() {
    let mut log = Vec::new();
    log.extend(render_tick_line(1, &[t("0.5")], &[t("0.1")]));
    log.extend(b"garbage\r\n".iter());
    log.extend(render_tick_line(2, &[], &[]));
    let entries = replay_log(&log).unwrap();
    assert_eq!(entries.len(), 2);
    assert_eq!(entries[0].tick, 1);
    assert_eq!(entries[0].rooms, vec![t("0.5")]);
    assert_eq!(entries[1].tick, 2);
    // a line that cannot be read stops the replay
    log.extend(b"3 x\n1 0\n".iter());
    assert_eq!(replay_log(&log).unwrap_err(), TickLogError::BadCount);
    assert!(replay_log(b"").unwrap().is_empty());
}

// ─── snapshots ───

fn small_snapshot_text() -> SnapshotText {
    SnapshotText {
        tick: 42,
        rooms: vec![RoomSnapshotText {
            id: 0,
            vibe: t("0.5"),
            surprise: t("0.1"),
            jepa_readings: vec![ReadingText { timestamp: t("1"), value: t("0.25") }],
            jepa_weights: vec![t("0.3"), t("0.7")],
        }],
        edges: vec![EdgeText { from: 0, to: 3, weight: t("0.9") }],
    }
}

#[test]
fn snapshot_text_is_exact() {
    assert_eq!(
        s(&render_snapshot_json(&small_snapshot_text())),
        "{\"tick\":42,\"rooms\":[{\"id\":0,\"vibe\":0.5,\"surprise\":0.1,\"jepa_readings\":[[1,0.25]],\"jepa_weights\":[0.3,0.7]}],\"edges\":[[0,3,0.9]]}"
    );
}

#[test]
fn snapshot_reads_back_what_it_writes() {
    let p = parse_snapshot(&render_snapshot_json(&small_snapshot_text())).unwrap();
    assert_eq!(p.tick, 42);
    assert_eq!(p.rooms.len(), 1);
    let r = &p.rooms[0];
    assert_eq!((r.id.clone(), r.vibe.clone(), r.surprise.clone()), (IndexText::Exact(0), t("0.5"), t("0.1")));
    assert_eq!(r.jepa_readings.len(), 1);
    assert_eq!((r.jepa_readings[0].timestamp.clone(), r.jepa_readings[0].value.clone()), (t("1"), t("0.25")));
    assert_eq!(r.jepa_weights, vec![t("0.3"), t("0.7")]);
    assert_eq!(p.edges.len(), 1);
    assert_eq!((p.edges[0].from, p.edges[0].to, p.edges[0].weight.clone()), (Some(0), Some(3), t("0.9")));
}

#[test]
fn empty_jepa_lists_read_back_empty() {
    let mut st = small_snapshot_text();
    st.rooms[0].jepa_weights = vec![];
    st.rooms[0].jepa_readings = vec![];
    let p = parse_snapshot(&render_snapshot_json(&st)).unwrap();
    assert!(p.rooms[0].jepa_weights.is_empty());
    assert!(p.rooms[0].jepa_readings.is_empty());
    let r = parse_room_snapshot(
        b"{\"id\":2,\"vibe\":0.2,\"surprise\":0.9,\"jepa_readings\":[],\"jepa_weights\":[]}",
    )
    .unwrap();
    assert_eq!(r.id, IndexText::Exact(2));
    assert!(r.jepa_readings.is_empty() && r.jepa_weights.is_empty());
    // a blank between the brackets is one (empty) weight text
    let r = parse_room_snapshot(b"{\"id\":2,\"vibe\":0.2,\"surprise\":0.9,\"jepa_weights\":[ ]}").unwrap();
    assert_eq!(r.jepa_weights, vec![Vec::<u8>::new()]);
}

#[test]
fn snapshot_edges_and_readings_of_the_wrong_shape() {
    let text = b"{\"tick\":1,\"rooms\":[{\"id\":0,\"vibe\":1,\"surprise\":2,\"jepa_readings\":[[1],[2,3],[4,5,6]]}],\"edges\":[[1,2],[a, 4 ,w],[1,2,3,4]]}";
    let p = parse_snapshot(text).unwrap();
    assert_eq!(p.rooms[0].jepa_readings.len(), 1);
    assert_eq!(p.rooms[0].jepa_readings[0].timestamp, t("2"));
    assert!(p.rooms[0].jepa_weights.is_empty());
    assert_eq!(p.edges.len(), 1);
    assert_eq!((p.edges[0].from, p.edges[0].to, p.edges[0].weight.clone()), (None, Some(4), t("w")));
}

#[test]
fn snapshot_errors_name_their_cause() {
    let e = |b: &[u8]| parse_snapshot(b).unwrap_err();
    assert!(matches!(e(b"{}"), SnapshotError::MissingTick));
    assert!(matches!(e(b"{\"tick\":x,\"rooms\":[],\"edges\":[]}"), SnapshotError::BadTick));
    assert!(matches!(e(b"{\"tick\":1,\"edges\":[]}"), SnapshotError::MissingRooms));
    assert!(matches!(e(b"{\"tick\":1,\"rooms\":["), SnapshotError::UnclosedRooms));
    assert!(matches!(e(b"{\"tick\":1,\"rooms\":[{],\"edges\":[]}"), SnapshotError::UnclosedRoomObject));
    assert!(matches!(
        e("{\"tick\":1,\"rooms\":[\u{e9}],\"edges\":[]}".as_bytes()),
        SnapshotError::NonAsciiBetweenRooms
    ));
    match e(b"{\"tick\":1,\"rooms\":[{\"id\":0,\"vibe\":1}],\"edges\":[]}") {
        SnapshotError::MissingKey(k) => assert_eq!(k, t("surprise")),
        other => panic!("unexpected {:?}", other),
    }
    match e(b"{\"tick\":1,\"rooms\":[{\"id\":one,\"vibe\":1,\"surprise\":1}],\"edges\":[]}") {
        SnapshotError::BadNumber(k) => assert_eq!(k, t("id")),
        other => panic!("unexpected {:?}", other),
    }
    match e(b"{\"tick\":1,\"rooms\":[{\"id\":0,\"vibe\":.}],\"edges\":[]}") {
        SnapshotError::BadNumber(k) => assert_eq!(k, t("vibe")),
        other => panic!("unexpected {:?}", other),
    }
    assert!(matches!(e(b"{\"tick\":1,\"rooms\":[]}"), SnapshotError::MissingEdges));
    assert!(matches!(e(b"{\"tick\":1,\"rooms\":[],\"edges\":[[1,2,3]"), SnapshotError::UnclosedEdges));
}

#[test]
fn room_snapshot_fields() {
    let r = parse_room_snapshot(b"{\"id\": 3 ,\"vibe\":0.5,\"surprise\":0.25,\"jepa_weights\":[ 1 , 2 ]}").unwrap();
    assert_eq!(r.id, IndexText::Exact(3));
    assert_eq!(r.jepa_weights, vec![t("1"), t("2")]);
    let r2 = parse_room_snapshot(b"{\"id\":1.5,\"vibe\":0.5,\"surprise\":0.25}").unwrap();
    assert_eq!(r2.id, IndexText::Float(t("1.5")));
    assert!(r2.jepa_weights.is_empty() && r2.jepa_readings.is_empty());
    assert_eq!(get_json_num_text(b"{\"vibe\": 0.5 }", b"vibe").unwrap(), b"0.5");
    assert!(matches!(get_json_num_text(b"{}", b"vibe"), Err(SnapshotError::MissingKey(_))));
}

#[test]
fn snapshot_capture_and_restore() {
    let mut g = CellGraph::new();
    g.add_room(10, 11);
    g.add_room(20, 21);
    g.add_edge(0, 1, 5);
    let readings = vec![vec![(1u64, 2u64)]];
    let weights: Vec<Vec<u64>> = vec![vec![3], vec![4, 5], vec![6]];
    let snap = Snapshot::from_graph(8, &g, &readings, &weights);
    assert_eq!(snap.tick, 8);
    assert_eq!(snap.rooms[0].jepa_readings, vec![(1, 2)]);
    assert!(snap.rooms[1].jepa_readings.is_empty());
    assert_eq!(snap.rooms[1].jepa_weights, vec![4, 5]);
    assert_eq!(snap.edges, vec![(0, 1, 5)]);
    let back = snap.to_graph();
    assert_eq!(back.rooms, g.rooms);
    assert_eq!(back.edges, g.edges);
    // restoring renumbers rooms by position
    let mut renum = snap.clone();
    renum.rooms[1].id = 77;
    assert_eq!(renum.to_graph().rooms[1].id, 1);
}
