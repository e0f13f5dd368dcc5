//! Tests of the label model, the scanner, and the interning store.

use refgraph::label::represent;
use refgraph::scan::{find_references, scan_document};
use refgraph::store::Store;

fn bytes(s: &str) -> Vec<u8> {
    s.as_bytes().to_vec()
}

fn refs(s: &str) -> Vec<String> {
    find_references(&bytes(s))
        .into_iter()
        .map(|m| String::from_utf8(m).unwrap())
        .collect()
}

#[test]
fn represent_strips_prefix_and_parses() {
    assert_eq!(represent(&bytes("A000045")), Some(45));
    assert_eq!(represent(&bytes("A000001")), Some(1));
    assert_eq!(represent(&bytes("B123456")), Some(123456));
    assert_eq!(represent(&bytes("X0")), Some(0));
}

#[test]
fn represent_bounds_of_32_bits() {
    assert_eq!(represent(&bytes("A4294967295")), Some(u32::MAX));
    assert_eq!(represent(&bytes("A4294967296")), None);
    assert_eq!(represent(&bytes("A99999999999")), None);
}

#[test]
fn represent_rejects_empty_or_nondigit_remainders() {
    assert_eq!(represent(&bytes("")), None);
    assert_eq!(represent(&bytes("A")), None);
    assert_eq!(represent(&bytes("A12x45")), None);
    assert_eq!(represent(&bytes("A+1234")), None);
    assert_eq!(represent(&bytes("A 1234")), None);
}

#[test]
fn represent_skips_the_whole_prefix_character() {
    // Two-, three- and four-byte UTF-8 prefix characters.
    assert_eq!(represent(&bytes("\u{100}000045")), Some(45));
    assert_eq!(represent(&bytes("\u{2192}123456")), Some(123456));
    assert_eq!(represent(&bytes("\u{1F004}123")), Some(123));
    assert_eq!(represent(&bytes("\u{100}")), None);
    assert_eq!(represent(&bytes("\u{100}12x")), None);
}

#[test]
fn matcher_finds_plain_references() {
    assert_eq!(refs("Compare A000002 and A000002."), vec!["A000002", "A000002"]);
    assert_eq!(refs("No related sequences."), Vec::<String>::new());
}

#[test]
fn matcher_requires_six_digits() {
    assert_eq!(refs("see B12."), Vec::<String>::new());
    assert_eq!(refs("see B12345."), Vec::<String>::new());
    assert_eq!(refs("see B123456."), vec!["B123456"]);
}

#[test]
fn matcher_is_greedy() {
    assert_eq!(refs("A123456789"), vec!["A123456789"]);
    assert_eq!(refs("A1234567B7654321"), vec!["A1234567", "B7654321"]);
}

#[test]
fn matcher_skips_nonmatching_prefixes() {
    assert_eq!(refs("AA1234567"), vec!["A1234567"]);
    assert_eq!(refs("a1234567"), Vec::<String>::new());
    assert_eq!(refs("1234567"), Vec::<String>::new());
    assert_eq!(refs("xA123456"), vec!["A123456"]);
}

#[test]
fn matcher_handles_match_at_end() {
    assert_eq!(refs("ends with A999999"), vec!["A999999"]);
    assert_eq!(refs("short A99999"), Vec::<String>::new());
}

#[test]
fn get_or_create_is_idempotent() {
    let mut store = Store::with_capacity(8, 8);
    let first = store.get_or_create(bytes("A000001"));
    let second = store.get_or_create(bytes("A000001"));
    assert_eq!(first, second);
    assert_eq!(store.node_count(), 1);
}

#[test]
fn handles_are_dense_in_first_seen_order() {
    let mut store = Store::with_capacity(8, 8);
    assert_eq!(store.get_or_create(bytes("A000010")), 0);
    assert_eq!(store.get_or_create(bytes("A000020")), 1);
    assert_eq!(store.get_or_create(bytes("A000010")), 0);
    assert_eq!(store.get_or_create(bytes("A000030")), 2);
    assert_eq!(store.node_count(), 3);
}

#[test]
fn add_edge_creates_missing_endpoints() {
    let mut store = Store::with_capacity(8, 8);
    store.add_edge(bytes("A000001"), bytes("A000002"));
    assert_eq!(store.node_count(), 2);
    assert_eq!(store.edge_count(), 1);
}

#[test]
fn add_edge_keeps_multiplicity() {
    let mut store = Store::with_capacity(8, 8);
    store.add_edge(bytes("A000001"), bytes("A000002"));
    store.add_edge(bytes("A000001"), bytes("A000002"));
    assert_eq!(store.node_count(), 2);
    assert_eq!(store.edge_count(), 2);
}

#[test]
fn scan_document_registers_node_without_references() {
    let mut store = Store::with_capacity(8, 8);
    scan_document(&mut store, bytes("A000002"), &bytes("No related sequences."));
    assert_eq!(store.node_count(), 1);
    assert_eq!(store.edge_count(), 0);
}

#[test]
fn scan_document_records_edges_in_match_order() {
    let mut store = Store::with_capacity(8, 8);
    scan_document(
        &mut store,
        bytes("A000001"),
        &bytes("Compare A000002 and A000003, then A000002 again."),
    );
    assert_eq!(store.node_count(), 3);
    assert_eq!(store.edge_count(), 3);
}

#[test]
fn scan_document_keeps_self_mentions() {
    let mut store = Store::with_capacity(8, 8);
    scan_document(&mut store, bytes("A000001"), &bytes("A000001 mentions itself."));
    assert_eq!(store.node_count(), 1);
    assert_eq!(store.edge_count(), 1);
}

#[test]
fn scan_document_ignores_short_references() {
    let mut store = Store::with_capacity(8, 8);
    scan_document(&mut store, bytes("A000001"), &bytes("refers to B12 only"));
    assert_eq!(store.node_count(), 1);
    assert_eq!(store.edge_count(), 0);
}
