//! Tests of the two exporters: the compact binary format with its decoder,
//! and the compressed GraphML document.

use std::io::Read;

use refgraph::codec::{decode_compact, export_compact, ExportError};
use refgraph::render::export_structured;
use refgraph::scan::scan_document;
use refgraph::store::Store;

fn bytes(s: &str) -> Vec<u8> {
    s.as_bytes().to_vec()
}

fn decompress(data: &[u8]) -> Vec<u8> {
    let mut reader = brotlic::DecompressorReader::new(data);
    let mut out = Vec::new();
    reader.read_to_end(&mut out).unwrap();
    out
}

#[test]
fn empty_store_exports_no_bytes() {
    let store = Store::with_capacity(4, 4);
    let compact = export_compact(&store).unwrap();
    assert_eq!(compact.len(), 0);
    let decoded = decode_compact(&compact).unwrap();
    assert_eq!(decoded.nodes, Vec::<u32>::new());
    assert_eq!(decoded.edges, Vec::<(u32, u32)>::new());
}

#[test]
fn node_record_layout_is_exact() {
    let mut store = Store::with_capacity(4, 4);
    store.get_or_create(bytes("A000258"));
    let compact = export_compact(&store).unwrap();
    assert_eq!(compact, vec![0x01, 0x02, 0x01, 0x00, 0x00, 0x0A]);
}

#[test]
fn edge_record_layout_is_exact() {
    let mut store = Store::with_capacity(4, 4);
    store.add_edge(bytes("A000001"), bytes("A000002"));
    let compact = export_compact(&store).unwrap();
    assert_eq!(
        compact,
        vec![
            0x01, 0x01, 0x00, 0x00, 0x00, 0x0A, // node 1
            0x01, 0x02, 0x00, 0x00, 0x00, 0x0A, // node 2
            0x00, 0x01, 0x00, 0x00, 0x00, 0x02, 0x00, 0x00, 0x00, 0x0A, // edge 1 -> 2
        ]
    );
}

#[test]
fn compact_size_law_holds() {
    let mut store = Store::with_capacity(8, 8);
    store.add_edge(bytes("A000001"), bytes("A000002"));
    store.add_edge(bytes("A000002"), bytes("A000003"));
    assert_eq!(store.node_count(), 3);
    assert_eq!(store.edge_count(), 2);
    let compact = export_compact(&store).unwrap();
    assert_eq!(compact.len(), 6 * 3 + 10 * 2);
}

#[test]
fn self_loop_has_equal_endpoints() {
    let mut store = Store::with_capacity(4, 4);
    store.add_edge(bytes("A000007"), bytes("A000007"));
    let compact = export_compact(&store).unwrap();
    let decoded = decode_compact(&compact).unwrap();
    assert_eq!(decoded.nodes, vec![7]);
    assert_eq!(decoded.edges, vec![(7, 7)]);
}

#[test]
fn duplicate_edges_appear_twice_in_export() {
    let mut store = Store::with_capacity(4, 4);
    store.add_edge(bytes("A000001"), bytes("A000002"));
    store.add_edge(bytes("A000001"), bytes("A000002"));
    let compact = export_compact(&store).unwrap();
    let decoded = decode_compact(&compact).unwrap();
    assert_eq!(decoded.edges, vec![(1, 2), (1, 2)]);
}

#[test]
fn round_trip_reconstructs_ids_and_pairs() {
    let mut store = Store::with_capacity(8, 8);
    scan_document(&mut store, bytes("A000045"), &bytes("see A000032 and A000045"));
    scan_document(&mut store, bytes("A000032"), &bytes("see A000045"));
    let compact = export_compact(&store).unwrap();
    let decoded = decode_compact(&compact).unwrap();
    assert_eq!(decoded.nodes, vec![45, 32]);
    assert_eq!(decoded.edges, vec![(45, 32), (45, 45), (32, 45)]);
}

#[test]
fn malformed_label_fails_compact_export() {
    let mut store = Store::with_capacity(4, 4);
    store.get_or_create(bytes("A000001"));
    store.get_or_create(bytes("A00x01"));
    let result = export_compact(&store);
    assert_eq!(result, Err(ExportError::MalformedLabel(bytes("A00x01"))));
}

#[test]
fn malformed_label_error_carries_first_offender() {
    let mut store = Store::with_capacity(4, 4);
    store.get_or_create(bytes("bad-one"));
    store.get_or_create(bytes("bad-two"));
    let result = export_compact(&store);
    assert_eq!(result, Err(ExportError::MalformedLabel(bytes("bad-one"))));
}

#[test]
fn decode_rejects_unknown_tag() {
    assert!(decode_compact(&vec![0x02, 0x00, 0x00, 0x00, 0x00, 0x0A]).is_none());
}

#[test]
fn decode_rejects_truncated_record() {
    assert!(decode_compact(&vec![0x01, 0x07, 0x00]).is_none());
    assert!(decode_compact(&vec![0x00, 0x07, 0x00, 0x00, 0x00, 0x08, 0x00]).is_none());
}

#[test]
fn decode_does_not_resynchronize_on_terminator() {
    // A node whose payload contains the terminator byte 0x0A.
    let mut store = Store::with_capacity(4, 4);
    store.get_or_create(bytes("A000010"));
    let compact = export_compact(&store).unwrap();
    assert_eq!(compact, vec![0x01, 0x0A, 0x00, 0x00, 0x00, 0x0A]);
    let decoded = decode_compact(&compact).unwrap();
    assert_eq!(decoded.nodes, vec![10]);
}

#[test]
fn scenario_two_documents_compact() {
    let mut store = Store::with_capacity(8, 8);
    scan_document(&mut store, bytes("A000001"), &bytes("Compare A000002 and A000002."));
    scan_document(&mut store, bytes("A000002"), &bytes("No related sequences."));
    assert_eq!(store.node_count(), 2);
    assert_eq!(store.edge_count(), 2);
    let compact = export_compact(&store).unwrap();
    assert_eq!(compact.len(), 32);
    let decoded = decode_compact(&compact).unwrap();
    assert_eq!(decoded.nodes, vec![1, 2]);
    assert_eq!(decoded.edges, vec![(1, 2), (1, 2)]);
}

#[test]
fn scenario_two_documents_structured() {
    let mut store = Store::with_capacity(8, 8);
    scan_document(&mut store, bytes("A000001"), &bytes("Compare A000002 and A000002."));
    scan_document(&mut store, bytes("A000002"), &bytes("No related sequences."));
    let compressed = export_structured(&store);
    let document = String::from_utf8(decompress(&compressed)).unwrap();
    assert!(document.contains("graphml"));
    assert!(document.contains("A000001"));
    assert!(document.contains("A000002"));
    assert_eq!(document.matches("<edge").count(), 2);
    assert_eq!(document.matches("<node").count(), 2);
}

#[test]
fn structured_export_succeeds_on_malformed_labels() {
    let mut store = Store::with_capacity(4, 4);
    store.get_or_create(bytes("A00x01"));
    store.add_edge(bytes("A00x01"), bytes("bad"));
    assert!(export_compact(&store).is_err());
    let compressed = export_structured(&store);
    let document = String::from_utf8(decompress(&compressed)).unwrap();
    assert!(document.contains("A00x01"));
    assert!(document.contains("bad"));
    assert_eq!(document.matches("<edge").count(), 1);
}

#[test]
fn structured_export_is_compressed() {
    let mut store = Store::with_capacity(8, 8);
    scan_document(&mut store, bytes("A000001"), &bytes("Compare A000002 and A000002."));
    let compressed = export_structured(&store);
    let document = decompress(&compressed);
    assert_ne!(compressed, document);
    assert!(compressed.len() < document.len());
}
