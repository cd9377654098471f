//! Save and restore formats of the cell graph: binary, JSON and CSV.
pub mod binary;
pub mod csv;
pub mod json;
pub mod json_roundtrip;

pub use binary::{decode_binary, encode_binary, BinaryError};
pub use csv::{render_edges_csv, render_rooms_csv, render_tick_history_csv, TickSummaryText};
pub use json::{
    find_array_end, json_get_text, json_get_usize, parse_json_graph, render_graph_json,
    split_objects, EdgeText, GraphText, JsonError, ParsedGraphEdge, ParsedGraphText, RoomText,
};
