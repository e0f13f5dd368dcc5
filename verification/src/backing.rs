//! Trusted declarations for the outside collections that back the store:
//! bimap's bidirectional hash map, which serves constant-time label lookup,
//! and petgraph's directed graph, which backs the GraphML rendering.

use vstd::prelude::*;

verus! {

#[verifier::external_type_specification]
#[verifier::external_body]
#[verifier::reject_recursive_types(L)]
#[verifier::reject_recursive_types(R)]
#[verifier::reject_recursive_types(LS)]
#[verifier::reject_recursive_types(RS)]
pub struct ExBiHashMap<L, R, LS, RS>(bimap::BiHashMap<L, R, LS, RS>);

#[verifier::external_type_specification]
#[verifier::external_body]
#[verifier::reject_recursive_types(N)]
#[verifier::reject_recursive_types(E)]
#[verifier::reject_recursive_types(Ty)]
#[verifier::reject_recursive_types(Ix)]
pub struct ExGraph<N, E, Ty, Ix>(petgraph::graph::Graph<N, E, Ty, Ix>);

#[verifier::external_type_specification]
#[verifier::external_body]
pub struct ExDirected(petgraph::Directed);

/// The left-to-right contents of the label map: which label byte strings are
/// registered, and the handle each one is paired with.
pub uninterp spec fn map_entries(m: bimap::BiMap<Vec<u8>, usize>) -> Map<Seq<u8>, int>;

/// The contents of a label map with nothing registered.
pub open spec fn no_entries() -> Map<Seq<u8>, int> {
    Map::empty()
}

/// The node list of a graph with nothing recorded.
pub open spec fn no_nodes() -> Seq<Seq<char>> {
    Seq::empty()
}

/// The edge list of a graph with nothing recorded.
pub open spec fn no_graph_edges() -> Seq<(int, int)> {
    Seq::empty()
}

/// The node weights the graph holds, in node index order.
pub uninterp spec fn graph_nodes(g: petgraph::graph::Graph<String, ()>) -> Seq<Seq<char>>;

/// The edges the graph holds, in insertion order, as index pairs.
pub uninterp spec fn graph_edges(g: petgraph::graph::Graph<String, ()>) -> Seq<(int, int)>;

/// The text that lossy UTF-8 decoding yields for a byte sequence.
pub uninterp spec fn lossy_text_of(b: Seq<u8>) -> Seq<char>;

/// Relies on bimap::BiHashMap::with_capacity: a newly created map holds no
/// pairs.
#[verifier::external_body]
pub(crate) fn map_new(capacity: usize) -> (m: bimap::BiMap<Vec<u8>, usize>)
    ensures
        map_entries(m) == no_entries(),
{
    bimap::BiMap::with_capacity(capacity)
}

/// Relies on bimap::BiHashMap::get_by_left: returns the right value paired
/// with the given left value, or `None` when no pair has that left value.
#[verifier::external_body]
pub(crate) fn map_lookup(m: &bimap::BiMap<Vec<u8>, usize>, label: &Vec<u8>) -> (r: Option<usize>)
    ensures
        match r {
            Some(h) => map_entries(*m).contains_key(label@) && map_entries(*m)[label@] == h as int,
            None => !map_entries(*m).contains_key(label@),
        },
{
    m.get_by_left(label).copied()
}

/// Relies on bimap::BiHashMap::insert: inserting a pair whose right value
/// occurs in no existing pair extends the left-to-right association by
/// exactly that pair (an existing pair with the same left value is
/// overwritten).
#[verifier::external_body]
pub(crate) fn map_insert(m: &mut bimap::BiMap<Vec<u8>, usize>, label: Vec<u8>, handle: usize)
    requires
        forall|l: Seq<u8>|
            map_entries(*old(m)).contains_key(l) ==> map_entries(*old(m))[l] != handle as int,
    ensures
        map_entries(*final(m)) == map_entries(*old(m)).insert(label@, handle as int),
{
    m.insert(label, handle);
}

/// Relies on petgraph::graph::Graph::with_capacity: a newly created graph
/// has no nodes and no edges.
#[verifier::external_body]
pub(crate) fn graph_new(nodes: usize, edges: usize) -> (g: petgraph::graph::Graph<String, ()>)
    ensures
        graph_nodes(g) == no_nodes(),
        graph_edges(g) == no_graph_edges(),
{
    petgraph::graph::Graph::with_capacity(nodes, edges)
}

/// Relies on petgraph::graph::Graph::add_node: appends one node and returns
/// its index, which equals the node count before the call. The call panics
/// only when the graph is at the maximum node count of its 32-bit index
/// type, which the precondition rules out.
#[verifier::external_body]
pub(crate) fn graph_add_node(g: &mut petgraph::graph::Graph<String, ()>, weight: String) -> (h: usize)
    requires
        graph_nodes(*old(g)).len() < 0xFFFF_FFFF,
    ensures
        graph_nodes(*final(g)) == graph_nodes(*old(g)).push(weight@),
        graph_edges(*final(g)) == graph_edges(*old(g)),
        h == graph_nodes(*old(g)).len(),
{
    g.add_node(weight).index()
}

/// Relies on petgraph::graph::Graph::add_edge: appends one directed edge,
/// parallel edges and self-loops included. The call panics only on an
/// endpoint out of bounds or at the maximum edge count of the 32-bit index
/// type, which the preconditions rule out.
#[verifier::external_body]
pub(crate) fn graph_add_edge(g: &mut petgraph::graph::Graph<String, ()>, source: usize, target: usize)
    requires
        source < graph_nodes(*old(g)).len(),
        target < graph_nodes(*old(g)).len(),
        graph_edges(*old(g)).len() < 0xFFFF_FFFF,
    ensures
        graph_nodes(*final(g)) == graph_nodes(*old(g)),
        graph_edges(*final(g)) == graph_edges(*old(g)).push((source as int, target as int)),
{
    let _ = g.add_edge(
        petgraph::graph::NodeIndex::new(source),
        petgraph::graph::NodeIndex::new(target),
        (),
    );
}

/// Relies on String::from_utf8_lossy: the resulting text is a function of
/// the bytes alone.
#[verifier::external_body]
pub(crate) fn to_text(b: &Vec<u8>) -> (r: String)
    ensures
        r@ == lossy_text_of(b@),
{
    String::from_utf8_lossy(b.as_slice()).into_owned()
}

} // verus!
