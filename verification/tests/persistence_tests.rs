use std::time::Instant;

use grand_pattern_store::float_text::IndexText;
use grand_pattern_store::graph::CellGraph;
use grand_pattern_store::persistence::{
    decode_binary, encode_binary, parse_json_graph, render_edges_csv, render_graph_json,
    render_rooms_csv, render_tick_history_csv, BinaryError, EdgeText, GraphText, ParsedGraphText,
    RoomText, TickSummaryText,
};
use grand_pattern_store::snapshot::{
    parse_snapshot, render_snapshot_json, ParsedSnapshotText, ReadingText, RoomSnapshotText,
    Snapshot, SnapshotText,
};
use grand_pattern_store::tick_log::{render_tick_line, replay_log, TickEntryText};

// ─── conversions a caller makes between f64 values and their texts ───

fn bits(v: f64) -> u64 {
    v.to_bits()
}

fn val(b: u64) -> f64 {
    f64::from_bits(b)
}

fn text(b: u64) -> Vec<u8> {
    format!("{}", f64::from_bits(b)).into_bytes()
}

fn num(t: &[u8]) -> f64 {
    std::str::from_utf8(t).unwrap().trim().parse::<f64>().unwrap()
}

fn graph_text(g: &CellGraph) -> GraphText {
    GraphText {
        rooms: g
            .rooms
            .iter()
            .map(|r| RoomText { id: r.id, vibe: text(r.vibe), surprise: text(r.surprise) })
            .collect(),
        edges: g
            .edges
            .iter()
            .map(|e| EdgeText { from: e.from, to: e.to, weight: text(e.weight) })
            .collect(),
    }
}

fn index(i: &IndexText) -> usize {
    match i {
        IndexText::Exact(v) => *v,
        IndexText::Float(t) => num(t) as usize,
    }
}

fn graph_from_text(t: &ParsedGraphText) -> CellGraph {
    let mut g = CellGraph::new();
    for r in &t.rooms {
        g.add_room(bits(num(&r.vibe)), bits(num(&r.surprise)));
    }
    for e in &t.edges {
        g.add_edge(index(&e.from), index(&e.to), bits(num(&e.weight)));
    }
    g
}

fn save_json(g: &CellGraph) -> Vec<u8> {
    render_graph_json(&graph_text(g))
}

fn load_json(b: &[u8]) -> CellGraph {
    graph_from_text(&parse_json_graph(b).unwrap())
}

fn snapshot_text(s: &Snapshot) -> SnapshotText {
    SnapshotText {
        tick: s.tick,
        rooms: s
            .rooms
            .iter()
            .map(|r| RoomSnapshotText {
                id: r.id,
                vibe: text(r.vibe),
                surprise: text(r.surprise),
                jepa_readings: r
                    .jepa_readings
                    .iter()
                    .map(|&(ts, v)| ReadingText { timestamp: text(ts), value: text(v) })
                    .collect(),
                jepa_weights: r.jepa_weights.iter().map(|&w| text(w)).collect(),
            })
            .collect(),
        edges: s
            .edges
            .iter()
            .map(|&(from, to, w)| EdgeText { from, to, weight: text(w) })
            .collect(),
    }
}

fn num_or_zero(t: &[u8]) -> f64 {
    std::str::from_utf8(t).ok().and_then(|s| s.trim().parse::<f64>().ok()).unwrap_or(0.0)
}

struct LoadedRoom {
    jepa_readings: Vec<(f64, f64)>,
    jepa_weights: Vec<f64>,
}

struct LoadedSnapshot {
    tick: u64,
    rooms: Vec<LoadedRoom>,
}

fn load_snapshot(b: &[u8]) -> LoadedSnapshot {
    let p: ParsedSnapshotText = parse_snapshot(b).unwrap();
    LoadedSnapshot {
        tick: p.tick,
        rooms: p
            .rooms
            .iter()
            .map(|r| LoadedRoom {
                jepa_readings: r
                    .jepa_readings
                    .iter()
                    .map(|x| (num_or_zero(&x.timestamp), num_or_zero(&x.value)))
                    .collect(),
                jepa_weights: r.jepa_weights.iter().map(|w| num_or_zero(w)).collect(),
            })
            .collect(),
    }
}

fn append(log: &mut Vec<u8>, tick: u64, rooms: &[f64], surprises: &[f64]) {
    let r: Vec<Vec<u8>> = rooms.iter().map(|v| format!("{}", v).into_bytes()).collect();
    let s: Vec<Vec<u8>> = surprises.iter().map(|v| format!("{}", v).into_bytes()).collect();
    log.extend_from_slice(&render_tick_line(tick, &r, &s));
}

fn replay(log: &[u8]) -> Vec<(u64, Vec<f64>, Vec<f64>)> {
    replay_log(log)
        .unwrap()
        .iter()
        .map(|e: &TickEntryText| {
            (e.tick, e.rooms.iter().map(|t| num(t)).collect(), e.surprises.iter().map(|t| num(t)).collect())
        })
        .collect()
}

fn lines(content: &[u8]) -> Vec<String> {
    String::from_utf8(content.to_vec()).unwrap().lines().map(|l| l.to_string()).collect()
}

fn make_graph() -> CellGraph {
    let mut g = CellGraph::new();
    let r0 = g.add_room(bits(0.5), bits(0.1));
    let r1 = g.add_room(bits(0.8), bits(0.3));
    let r2 = g.add_room(bits(0.2), bits(0.9));
    g.add_edge(r0, r1, bits(0.7));
    g.add_edge(r1, r2, bits(0.4));
    g
}

#[test]
fn test_binary_roundtrip() {
    let g = make_graph();
    let bytes = encode_binary(&g);
    let loaded = decode_binary(&bytes).unwrap();
    assert_eq!(loaded.rooms.len(), 3);
    assert_eq!(loaded.edges.len(), 2);
    assert!((val(loaded.rooms[0].vibe) - 0.5).abs() < 1e-10);
    assert!((val(loaded.rooms[2].surprise) - 0.9).abs() < 1e-10);
    assert!((val(loaded.edges[0].weight) - 0.7).abs() < 1e-10);
}

#[test]
fn test_json_roundtrip() {
    let g = make_graph();
    let loaded = load_json(&save_json(&g));
    assert_eq!(loaded.rooms.len(), 3);
    assert_eq!(loaded.edges.len(), 2);
    assert!((val(loaded.rooms[1].vibe) - 0.8).abs() < 1e-10);
    assert!((val(loaded.edges[1].weight) - 0.4).abs() < 1e-10);
}

#[test]
fn test_csv_rooms() {
    let g = make_graph();
    let content = render_rooms_csv(&graph_text(&g).rooms);
    assert!(content.starts_with(b"id,vibe,surprise\n"));
    assert_eq!(lines(&content).len(), 4); // header + 3 rooms
}

#[test]
fn test_csv_edges() {
    let g = make_graph();
    let content = render_edges_csv(&graph_text(&g).edges);
    assert!(content.starts_with(b"from,to,weight\n"));
    assert_eq!(lines(&content).len(), 3); // header + 2 edges
}

#[test]
fn test_csv_tick_history() {
    let history = vec![(1u64, 0.5f64, 0.1f64), (2u64, 0.6, 0.2)];
    let texts: Vec<TickSummaryText> = history
        .iter()
        .map(|&(t, v, s)| TickSummaryText {
            tick: t,
            mean_vibe: format!("{}", v).into_bytes(),
            mean_surprise: format!("{}", s).into_bytes(),
        })
        .collect();
    let content = render_tick_history_csv(&texts);
    assert!(content.starts_with(b"tick,mean_vibe,mean_surprise\n"));
}

#[test]
fn test_tick_log_append_replay() {
    let mut log = Vec::new();
    append(&mut log, 1, &[0.5, 0.8], &[0.1, 0.3]);
    append(&mut log, 2, &[0.6, 0.9], &[0.2, 0.4]);

    let entries = replay(&log);
    assert_eq!(entries.len(), 2);
    assert_eq!(entries[0].0, 1);
    assert!((entries[0].1[0] - 0.5).abs() < 1e-10);
    assert!((entries[1].2[1] - 0.4).abs() < 1e-10);
}

#[test]
fn test_snapshot_preserves_vibe() {
    let g = make_graph();
    let jepa_readings = vec![
        vec![(bits(1.0), bits(0.5)), (bits(2.0), bits(0.6))],
        vec![(bits(1.0), bits(0.8))],
        vec![],
    ];
    let jepa_weights = vec![
        vec![bits(0.1), bits(0.2)],
        vec![bits(0.3)],
        vec![bits(0.4), bits(0.5), bits(0.6)],
    ];
    let snap = Snapshot::from_graph(42, &g, &jepa_readings, &jepa_weights);
    let restored = snap.to_graph();
    assert!((val(restored.rooms[0].vibe) - 0.5).abs() < 1e-10);
    assert!((val(restored.rooms[1].surprise) - 0.3).abs() < 1e-10);
}

#[test]
fn test_snapshot_preserves_edges() {
    let g = make_graph();
    let snap = Snapshot::from_graph(0, &g, &[], &[]);
    assert_eq!(snap.edges.len(), 2);
    let restored = snap.to_graph();
    assert_eq!(restored.edges.len(), 2);
    assert_eq!(restored.edges[0].from, 0);
    assert_eq!(restored.edges[0].to, 1);
}

#[test]
fn test_snapshot_preserves_jepa_weights() {
    let g = make_graph();
    let jepa_weights = vec![vec![bits(0.1), bits(0.2)], vec![bits(0.3)], vec![]];
    let snap = Snapshot::from_graph(0, &g, &[], &jepa_weights);
    assert_eq!(snap.rooms[0].jepa_weights.len(), 2);
    assert!((val(snap.rooms[0].jepa_weights[0]) - 0.1).abs() < 1e-10);
    assert_eq!(snap.rooms[2].jepa_weights.len(), 0);
}

#[test]
fn test_binary_format_compact() {
    let g = make_graph();
    let size = encode_binary(&g).len();
    // Header: 14 bytes, rooms: 3*20=60, edges: 2*16=32 → 106
    assert_eq!(size, 106);
}

#[test]
fn test_json_is_valid() {
    let g = make_graph();
    let content = save_json(&g);
    // Check it starts and ends correctly
    assert!(content.starts_with(b"{"));
    assert!(content.ends_with(b"}"));
    // Try to parse it back (our own parser is the validity check)
    let loaded = load_json(&content);
    assert_eq!(loaded.rooms.len(), 3);
}

#[test]
fn test_csv_spreadsheet_friendly() {
    let g = make_graph();
    let content = render_rooms_csv(&graph_text(&g).rooms);
    // No commas in numbers (f64 display)
    for line in lines(&content).iter().skip(1) {
        let parts: Vec<&str> = line.split(',').collect();
        assert_eq!(parts.len(), 3);
    }
}

#[test]
fn test_tick_log_10k_ticks() {
    let mut log = Vec::new();
    for tick in 0..10_000u64 {
        append(&mut log, tick, &[tick as f64 * 0.01], &[tick as f64 * 0.02]);
    }
    let entries = replay(&log);
    assert_eq!(entries.len(), 10_000);
}

#[test]
fn test_empty_graph_roundtrip() {
    let g = CellGraph::new();
    let loaded = decode_binary(&encode_binary(&g)).unwrap();
    assert_eq!(loaded.rooms.len(), 0);
    assert_eq!(loaded.edges.len(), 0);
}

#[test]
fn test_empty_graph_json_roundtrip() {
    let g = CellGraph::new();
    let loaded = load_json(&save_json(&g));
    assert_eq!(loaded.rooms.len(), 0);
    assert_eq!(loaded.edges.len(), 0);
}

#[test]
fn test_single_room_save_load() {
    let mut g = CellGraph::new();
    g.add_room(bits(42.0), bits(99.0));
    let loaded = decode_binary(&encode_binary(&g)).unwrap();
    assert_eq!(loaded.rooms.len(), 1);
    assert!((val(loaded.rooms[0].vibe) - 42.0).abs() < 1e-10);
}

#[test]
fn test_large_graph_save_load() {
    let mut g = CellGraph::new();
    for i in 0..1000 {
        g.add_room(bits(i as f64), bits((1000 - i) as f64));
    }
    for i in 0..999 {
        g.add_edge(i, i + 1, bits(1.0 / (i as f64 + 1.0)));
    }
    let loaded = decode_binary(&encode_binary(&g)).unwrap();
    assert_eq!(loaded.rooms.len(), 1000);
    assert_eq!(loaded.edges.len(), 999);
}

#[test]
fn test_binary_version_check() {
    // A file with a future minor version: the major version is 0, as ours.
    let data = b"GPAT\x00\x02\x00\x00\x00\x00\x00\x00\x00";
    let _result = decode_binary(data);
    // A file with major version 1 is refused.
    let data2 = b"GPAT\x01\x00\x00\x00\x00\x00\x00\x00\x00";
    let result2 = decode_binary(data2);
    assert!(result2.is_err());
}

#[test]
fn test_corrupted_binary_detected() {
    // Bad magic
    let data = b"XXXX\x00\x01\x00\x00\x00\x00\x00\x00\x00";
    let result = decode_binary(data);
    assert!(result.is_err());
}

#[test]
fn test_multiple_snapshots() {
    let g = make_graph();
    let snap1 = Snapshot::from_graph(1, &g, &[], &[]);
    let snap2 = Snapshot::from_graph(2, &g, &[], &[]);

    let saved1 = render_snapshot_json(&snapshot_text(&snap1));
    let saved2 = render_snapshot_json(&snapshot_text(&snap2));

    let loaded1 = load_snapshot(&saved1);
    let loaded2 = load_snapshot(&saved2);

    assert_eq!(loaded1.tick, 1);
    assert_eq!(loaded2.tick, 2);
    assert_eq!(loaded1.rooms.len(), loaded2.rooms.len());
}

#[test]
fn test_snapshot_with_jepa_roundtrip() {
    let g = make_graph();
    let readings = vec![
        vec![(bits(1.0), bits(0.5)), (bits(2.0), bits(0.6))],
        vec![(bits(1.0), bits(0.8))],
        vec![(bits(3.0), bits(0.1)), (bits(4.0), bits(0.2))],
    ];
    let weights = vec![
        vec![bits(0.1), bits(0.2), bits(0.3)],
        vec![bits(0.4)],
        vec![bits(0.5), bits(0.6)],
    ];
    let snap = Snapshot::from_graph(99, &g, &readings, &weights);
    let saved = render_snapshot_json(&snapshot_text(&snap));
    let loaded = load_snapshot(&saved);

    assert_eq!(loaded.tick, 99);
    assert_eq!(loaded.rooms[0].jepa_readings.len(), 2);
    assert!((loaded.rooms[0].jepa_readings[0].0 - 1.0).abs() < 1e-10);
    assert!((loaded.rooms[0].jepa_readings[1].1 - 0.6).abs() < 1e-10);
    assert_eq!(loaded.rooms[1].jepa_readings.len(), 1);
    assert_eq!(loaded.rooms[2].jepa_readings.len(), 2);
    assert_eq!(loaded.rooms[0].jepa_weights.len(), 3);
    assert!((loaded.rooms[0].jepa_weights[2] - 0.3).abs() < 1e-10);
}

#[test]
fn test_performance_10k_rooms() {
    let mut g = CellGraph::new();
    for i in 0..10_000 {
        g.add_room(bits(i as f64 * 0.001), bits((10000 - i) as f64 * 0.001));
    }
    let start = Instant::now();
    let bytes = encode_binary(&g);
    let elapsed = start.elapsed();
    assert!(elapsed.as_millis() < 100, "save took {:?}", elapsed);

    let start = Instant::now();
    let loaded = decode_binary(&bytes).unwrap();
    let elapsed = start.elapsed();
    assert!(elapsed.as_millis() < 100, "load took {:?}", elapsed);
    assert_eq!(loaded.rooms.len(), 10_000);
}

#[test]
fn test_snapshot_restore_from_graph() {
    let g = make_graph();
    let snap = Snapshot::from_graph(10, &g, &[], &[]);
    let restored = snap.to_graph();
    assert_eq!(restored.rooms.len(), g.rooms.len());
    assert_eq!(restored.edges.len(), g.edges.len());
    for (a, b) in restored.rooms.iter().zip(g.rooms.iter()) {
        assert!((val(a.vibe) - val(b.vibe)).abs() < 1e-10);
        assert!((val(a.surprise) - val(b.surprise)).abs() < 1e-10);
    }
}

#[test]
fn binary_errors_name_their_cause() {
    assert!(matches!(decode_binary(b"GPA"), Err(BinaryError::UnexpectedEof)));
    assert!(matches!(decode_binary(b"XXXX\x00\x01"), Err(BinaryError::InvalidMagic)));
    assert!(matches!(
        decode_binary(b"GPAT\x03\x07\x00\x00\x00\x00\x00\x00\x00\x00"),
        Err(BinaryError::UnsupportedVersion { major: 3, minor: 7 })
    ));
    // one room announced, none present
    assert!(matches!(
        decode_binary(b"GPAT\x00\x01\x01\x00\x00\x00\x00\x00\x00\x00"),
        Err(BinaryError::UnexpectedEof)
    ));
}

#[test]
fn room_without_jepa_state_reloads_without_it() {
    let g = make_graph();
    let weights = vec![vec![bits(0.1)], vec![], vec![bits(0.5), bits(0.6)]];
    let snap = Snapshot::from_graph(5, &g, &[], &weights);
    let loaded = load_snapshot(&render_snapshot_json(&snapshot_text(&snap)));
    assert_eq!(loaded.rooms.len(), 3);
    assert_eq!(loaded.rooms[0].jepa_weights, vec![0.1]);
    assert!(loaded.rooms[1].jepa_weights.is_empty());
    assert!(loaded.rooms[1].jepa_readings.is_empty());
    assert_eq!(loaded.rooms[2].jepa_weights, vec![0.5, 0.6]);
}
