//! The structured exporter: renders the finished graph as a GraphML
//! document, each node displaying its original text label, and compresses
//! the rendering with brotli. This artifact duplicates the compact export's
//! information in an interoperable encoding; it uses the labels as text
//! only, needs no numeric representation, and therefore always succeeds.

use crate::backing::{graph_edges, graph_nodes, lossy_text_of};
use crate::store::Store;
use vstd::prelude::*;

verus! {

/// The GraphML document that the renderer produces for the given node
/// weights and edge endpoint pairs.
pub uninterp spec fn graphml_of(nodes: Seq<Seq<char>>, edges: Seq<(int, int)>) -> Seq<u8>;

/// The brotli compression of a byte stream, at the default settings.
pub uninterp spec fn brotli_of(data: Seq<u8>) -> Seq<u8>;

/// The texts of a store's labels, in handle order.
pub open spec fn node_texts(labels: Seq<Seq<u8>>) -> Seq<Seq<char>> {
    Seq::new(labels.len(), |i: int| lossy_text_of(labels[i]))
}

/// Relies on petgraph_graphml::GraphMl (new, export_node_weights_display,
/// to_writer): the rendered XML is a function of the graph's node weights
/// and edge endpoints alone, and to_writer fails only on an I/O error of
/// the sink, which a byte buffer never produces.
#[verifier::external_body]
fn render_graphml(g: &petgraph::graph::Graph<String, ()>) -> (r: Vec<u8>)
    ensures
        r@ == graphml_of(graph_nodes(*g), graph_edges(*g)),
{
    let document = petgraph_graphml::GraphMl::new(g).export_node_weights_display();
    let mut buffer: Vec<u8> = Vec::new();
    document.to_writer(&mut buffer).expect("writing GraphML into a byte buffer cannot fail");
    buffer
}

/// Relies on brotlic::CompressorWriter (new, write_all, into_inner) at its
/// default quality and window: the compressed bytes are a function of the
/// input bytes alone, into_inner finishes the stream, and writing fails
/// only on an I/O error of the sink, which a byte buffer never produces.
#[verifier::external_body]
fn compress(data: &Vec<u8>) -> (r: Vec<u8>)
    ensures
        r@ == brotli_of(data@),
{
    let mut writer = brotlic::CompressorWriter::new(Vec::new());
    std::io::Write::write_all(&mut writer, data.as_slice()).expect(
        "compressing into a byte buffer cannot fail",
    );
    writer.into_inner().expect("finishing the compressed stream into a byte buffer cannot fail")
}

/// Serializes the finished graph as a brotli-compressed GraphML document:
/// exactly the compression of the rendering of the store's label texts (in
/// handle order) and its edges (in insertion order). Unlike the compact
/// exporter this never fails, however malformed a label: the rendering
/// displays labels as text and needs no numeric representation.
pub fn export_structured(store: &Store) -> (r: Vec<u8>)
    requires
        store.wf(),
    ensures
        r@ == brotli_of(graphml_of(node_texts(store@.labels), store@.edges)),
{
    let g = store.backing_graph();
    proof {
        assert(graph_nodes(*g) =~= node_texts(store@.labels));
    }
    let rendered = render_graphml(g);
    compress(&rendered)
}

} // verus!
