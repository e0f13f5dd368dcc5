//! The interning store: sole owner of the label/handle bijection and of the
//! node and edge data of the directed multigraph.

use crate::backing::{
    graph_add_edge, graph_add_node, graph_edges, graph_new, graph_nodes, lossy_text_of,
    map_entries, map_insert, map_lookup, map_new, to_text,
};
use crate::label::copy_bytes;
use vstd::prelude::*;

verus! {

/// The mathematical content of a store: the interned labels in handle
/// order, and the recorded edges as ordered pairs of handles.
#[verifier::ext_equal]
pub struct StoreView {
    pub labels: Seq<Seq<u8>>,
    pub edges: Seq<(int, int)>,
}

impl StoreView {
    /// Registered labels are pairwise distinct, and every edge endpoint is a
    /// handle, that is, an index into the label list.
    pub open spec fn inv(self) -> bool {
        &&& forall|i: int, j: int|
            0 <= i < j < self.labels.len() ==> self.labels[i] != self.labels[j]
        &&& forall|k: int|
            0 <= k < self.edges.len() ==> {
                &&& 0 <= (#[trigger] self.edges[k]).0 < self.labels.len()
                &&& 0 <= self.edges[k].1 < self.labels.len()
            }
    }

    /// The handle of a registered label: the index at which it stands, which
    /// the invariant makes unique.
    pub open spec fn handle_of(self, l: Seq<u8>) -> int {
        choose|i: int| 0 <= i < self.labels.len() && self.labels[i] == l
    }
}

/// Interning a label: an already registered label keeps its handle and
/// leaves the store unchanged; a fresh label is appended and receives the
/// next handle, the current label count.
pub open spec fn intern_spec(m: StoreView, l: Seq<u8>) -> (StoreView, int) {
    if m.labels.contains(l) {
        (m, m.handle_of(l))
    } else {
        (StoreView { labels: m.labels.push(l), edges: m.edges }, m.labels.len() as int)
    }
}

/// Recording an edge: intern both endpoint labels in order, then append the
/// ordered handle pair to the edge list.
pub open spec fn add_edge_spec(m: StoreView, a: Seq<u8>, b: Seq<u8>) -> StoreView {
    let (m1, ha) = intern_spec(m, a);
    let (m2, hb) = intern_spec(m1, b);
    StoreView { labels: m2.labels, edges: m2.edges.push((ha, hb)) }
}

/// The interning store. `labels` and `edges` carry the data the exporters
/// read; the bidirectional map gives constant-time label lookup and the
/// petgraph graph backs the GraphML rendering. Well-formedness keeps all
/// four in agreement, so the bijection can never be observed half-updated.
pub struct Store {
    labels: Vec<Vec<u8>>,
    edges: Vec<(usize, usize)>,
    map: bimap::BiMap<Vec<u8>, usize>,
    graph: petgraph::graph::Graph<String, ()>,
}

impl View for Store {
    type V = StoreView;

    closed spec fn view(&self) -> StoreView {
        StoreView {
            labels: Seq::new(self.labels@.len(), |i: int| self.labels@[i]@),
            edges: Seq::new(
                self.edges@.len(),
                |k: int| (self.edges@[k].0 as int, self.edges@[k].1 as int),
            ),
        }
    }
}

impl Store {
    /// The backing map holds exactly the label-to-handle association, and
    /// the backing graph holds one node per label (its text) and exactly the
    /// recorded edges.
    pub closed spec fn wf(&self) -> bool {
        &&& self@.inv()
        &&& forall|i: int|
            0 <= i < self@.labels.len() ==> {
                &&& map_entries(self.map).contains_key(#[trigger] self@.labels[i])
                &&& map_entries(self.map)[self@.labels[i]] == i
            }
        &&& forall|l: Seq<u8>|
            #[trigger] map_entries(self.map).contains_key(l) ==> self@.labels.contains(l)
        &&& graph_nodes(self.graph).len() == self@.labels.len()
        &&& forall|i: int|
            0 <= i < self@.labels.len() ==> graph_nodes(self.graph)[i] == lossy_text_of(
                #[trigger] self@.labels[i],
            )
        &&& graph_edges(self.graph) == self@.edges
    }

    /// Creates an empty store, with capacity hints for the backing
    /// collections.
    pub fn with_capacity(nodes: usize, edges: usize) -> (s: Store)
        ensures
            s.wf(),
            s@.labels.len() == 0,
            s@.edges.len() == 0,
    {
        let cap = if nodes > edges {
            nodes
        } else {
            edges
        };
        let s = Store {
            labels: Vec::new(),
            edges: Vec::new(),
            map: map_new(cap),
            graph: graph_new(nodes, edges),
        };
        proof {
            assert(s@.labels =~= Seq::<Seq<u8>>::empty());
            assert(s@.edges =~= Seq::<(int, int)>::empty());
        }
        s
    }

    /// Returns the handle of `label`, registering it with the next handle
    /// value when it is new. Registration updates both directions of the
    /// mapping and the graph in one call, so no partial registration is
    /// observable.
    pub fn get_or_create(&mut self, label: Vec<u8>) -> (h: usize)
        requires
            old(self).wf(),
            old(self)@.labels.len() < 0xFFFF_FFFF,
        ensures
            final(self).wf(),
            final(self)@ == intern_spec(old(self)@, label@).0,
            h as int == intern_spec(old(self)@, label@).1,
            h < final(self)@.labels.len() && final(self)@.labels[h as int] == label@,
    {
        match map_lookup(&self.map, &label) {
            Some(h) => {
                proof {
                    let m = old(self)@;
                    assert(m.labels.contains(label@));
                    let c = m.handle_of(label@);
                    assert(0 <= c < m.labels.len() && m.labels[c] == label@);
                    assert(map_entries(self.map)[m.labels[c]] == c);
                    assert(h as int == c);
                }
                h
            },
            None => {
                proof {
                    let m = old(self)@;
                    if m.labels.contains(label@) {
                        let i = choose|i: int|
                            0 <= i < m.labels.len() && m.labels[i] == label@;
                        assert(map_entries(self.map).contains_key(m.labels[i]));
                        assert(false);
                    }
                }
                let h = self.labels.len();
                assert forall|l: Seq<u8>| map_entries(self.map).contains_key(l)
                    implies map_entries(self.map)[l] != h as int by {
                    let m = old(self)@;
                    assert(m.labels.contains(l));
                    let i = choose|i: int| 0 <= i < m.labels.len() && m.labels[i] == l;
                    assert(map_entries(self.map)[m.labels[i]] == i);
                }
                let text = to_text(&label);
                let _ = graph_add_node(&mut self.graph, text);
                let label_key = copy_bytes(&label);
                map_insert(&mut self.map, label_key, h);
                self.labels.push(label);
                proof {
                    let m = old(self)@;
                    assert(self@.labels =~= m.labels.push(label@));
                    assert(self@.edges =~= m.edges);
                    assert(self@ =~= intern_spec(m, label@).0);
                    assert forall|i: int| 0 <= i < self@.labels.len() implies {
                        &&& map_entries(self.map).contains_key(#[trigger] self@.labels[i])
                        &&& map_entries(self.map)[self@.labels[i]] == i
                    } by {
                        if i < m.labels.len() {
                            assert(self@.labels[i] == m.labels[i]);
                            assert(m.labels[i] != label@) by {
                                if m.labels[i] == label@ {
                                    assert(m.labels.contains(label@));
                                }
                            }
                        }
                    }
                    assert forall|l: Seq<u8>| #[trigger] map_entries(self.map).contains_key(l)
                        implies self@.labels.contains(l) by {
                        if l == label@ {
                            assert(self@.labels[h as int] == label@);
                        } else {
                            assert(map_entries(old(self).map).contains_key(l));
                            assert(m.labels.contains(l));
                            let i = choose|i: int| 0 <= i < m.labels.len() && m.labels[i] == l;
                            assert(self@.labels[i] == l);
                        }
                    }
                }
                h
            },
        }
    }

    /// Records one directed edge from `source` to `target`, interning both
    /// labels first, so an endpoint never seen as a document is registered
    /// by this very call. Parallel edges and self-loops are recorded as
    /// given: no deduplication.
    pub fn add_edge(&mut self, source: Vec<u8>, target: Vec<u8>)
        requires
            old(self).wf(),
            old(self)@.labels.len() + 2 <= 0xFFFF_FFFF,
            old(self)@.edges.len() < 0xFFFF_FFFF,
        ensures
            final(self).wf(),
            final(self)@ == add_edge_spec(old(self)@, source@, target@),
    {
        let ha = self.get_or_create(source);
        let hb = self.get_or_create(target);
        graph_add_edge(&mut self.graph, ha, hb);
        self.edges.push((ha, hb));
        proof {
            let m = old(self)@;
            let (m1, sa) = intern_spec(m, source@);
            let (m2, sb) = intern_spec(m1, target@);
            assert(self@.labels =~= m2.labels);
            assert(self@.edges =~= m2.edges.push((sa, sb)));
            assert(self@ =~= add_edge_spec(m, source@, target@));
        }
    }

    /// The number of registered nodes; the handles in use are exactly the
    /// values below this count.
    pub fn node_count(&self) -> (n: usize)
        ensures
            n == self@.labels.len(),
    {
        self.labels.len()
    }

    /// The number of recorded edges.
    pub fn edge_count(&self) -> (n: usize)
        ensures
            n == self@.edges.len(),
    {
        self.edges.len()
    }

    /// The registered labels, in handle order.
    pub fn node_labels(&self) -> (r: &Vec<Vec<u8>>)
        ensures
            r@.len() == self@.labels.len(),
            forall|i: int| 0 <= i < r@.len() ==> (#[trigger] r@[i])@ == self@.labels[i],
    {
        &self.labels
    }

    /// The recorded edges, in insertion order, as handle pairs.
    pub fn edge_list(&self) -> (r: &Vec<(usize, usize)>)
        ensures
            r@.len() == self@.edges.len(),
            forall|k: int|
                0 <= k < r@.len() ==> (#[trigger] r@[k]).0 == self@.edges[k].0 && r@[k].1
                    == self@.edges[k].1,
    {
        &self.edges
    }

    /// The backing graph, for rendering; well-formedness ties its contents
    /// to the store's view.
    pub(crate) fn backing_graph(&self) -> (g: &petgraph::graph::Graph<String, ()>)
        requires
            self.wf(),
        ensures
            graph_nodes(*g).len() == self@.labels.len(),
            forall|i: int|
                0 <= i < self@.labels.len() ==> graph_nodes(*g)[i] == lossy_text_of(
                    #[trigger] self@.labels[i],
                ),
            graph_edges(*g) == self@.edges,
    {
        &self.graph
    }

    /// A well-formed store's view satisfies the view invariant.
    pub proof fn lemma_wf_inv(&self)
        requires
            self.wf(),
        ensures
            self@.inv(),
    {
    }
}

/// Interning preserves the invariant, never removes a label, registers the
/// interned label at the returned handle, and leaves the edges alone.
pub proof fn lemma_intern_props(m: StoreView, l: Seq<u8>)
    requires
        m.inv(),
    ensures
        ({
            let (m1, h) = intern_spec(m, l);
            &&& m1.inv()
            &&& m1.edges == m.edges
            &&& 0 <= h < m1.labels.len()
            &&& m1.labels[h] == l
            &&& m.labels.len() <= m1.labels.len() <= m.labels.len() + 1
            &&& forall|i: int| 0 <= i < m.labels.len() ==> m1.labels[i] == m.labels[i]
            &&& (m.labels.contains(l) ==> m1 == m)
            &&& (!m.labels.contains(l) ==> m1.labels == m.labels.push(l) && h == m.labels.len())
        }),
{
    if m.labels.contains(l) {
        let h = m.handle_of(l);
        assert(0 <= h < m.labels.len() && m.labels[h] == l);
    } else {
        let (m1, h) = intern_spec(m, l);
        assert(m1.labels[h] == l);
        assert forall|i: int, j: int| 0 <= i < j < m1.labels.len() implies m1.labels[i]
            != m1.labels[j] by {
            if j == m.labels.len() {
                if m1.labels[i] == l {
                    assert(m.labels[i] == l);
                    assert(m.labels.contains(l));
                }
            }
        }
    }
}

/// The handle of a registered label is the index at which it stands:
/// interning it returns that index and changes nothing.
pub proof fn lemma_handle_unique(m: StoreView, l: Seq<u8>, h: int)
    requires
        m.inv(),
        0 <= h < m.labels.len(),
        m.labels[h] == l,
    ensures
        intern_spec(m, l) == (m, h),
{
    assert(m.labels.contains(l));
    let c = m.handle_of(l);
    assert(0 <= c < m.labels.len() && m.labels[c] == l);
    if c < h {
        assert(m.labels[c] != m.labels[h]);
    } else if h < c {
        assert(m.labels[h] != m.labels[c]);
    }
}

/// Idempotent interning: interning the same label a second time returns the
/// identical handle and leaves the store unchanged.
pub proof fn lemma_intern_idempotent(m: StoreView, l: Seq<u8>)
    requires
        m.inv(),
    ensures
        ({
            let (m1, h1) = intern_spec(m, l);
            let (m2, h2) = intern_spec(m1, l);
            m2 == m1 && h2 == h1
        }),
{
    let (m1, h1) = intern_spec(m, l);
    lemma_intern_props(m, l);
    lemma_handle_unique(m1, l, h1);
}

/// Bijection: the registered labels are pairwise distinct, so the number of
/// distinct labels equals the number of handles in use, and interning a
/// label adds exactly that label to the set of registered labels.
pub proof fn lemma_bijection(m: StoreView, l: Seq<u8>)
    requires
        m.inv(),
    ensures
        m.labels.to_set().len() == m.labels.len(),
        intern_spec(m, l).0.labels.to_set() == m.labels.to_set().insert(l),
{
    assert(m.labels.no_duplicates());
    m.labels.unique_seq_to_set();
    lemma_intern_props(m, l);
    let m1 = intern_spec(m, l).0;
    assert forall|x: Seq<u8>| #[trigger] m1.labels.to_set().contains(x) implies m.labels.to_set()
        .insert(l).contains(x) by {
        let i = choose|i: int| 0 <= i < m1.labels.len() && m1.labels[i] == x;
        if i < m.labels.len() {
            assert(m.labels.contains(x));
        }
    }
    assert forall|x: Seq<u8>| m.labels.to_set().insert(l).contains(x)
        implies #[trigger] m1.labels.to_set().contains(x) by {
        if x == l {
            let h = intern_spec(m, l).1;
            assert(m1.labels[h] == l);
            assert(m1.labels.contains(l));
        } else {
            assert(m.labels.contains(x));
            let i = choose|i: int| 0 <= i < m.labels.len() && m.labels[i] == x;
            assert(m1.labels[i] == x);
            assert(m1.labels.contains(x));
        }
    }
    assert(m1.labels.to_set() =~= m.labels.to_set().insert(l));
}

/// Recording an edge preserves the invariant, appends exactly one edge,
/// and keeps every already registered label at its handle.
pub proof fn lemma_add_edge_props(m: StoreView, a: Seq<u8>, b: Seq<u8>)
    requires
        m.inv(),
    ensures
        ({
            let m1 = add_edge_spec(m, a, b);
            &&& m1.inv()
            &&& m1.edges.len() == m.edges.len() + 1
            &&& forall|k: int| 0 <= k < m.edges.len() ==> m1.edges[k] == m.edges[k]
            &&& m.labels.len() <= m1.labels.len() <= m.labels.len() + 2
            &&& forall|i: int| 0 <= i < m.labels.len() ==> m1.labels[i] == m.labels[i]
        }),
{
    let (ma, ha) = intern_spec(m, a);
    lemma_intern_props(m, a);
    let (mb, hb) = intern_spec(ma, b);
    lemma_intern_props(ma, b);
    let m1 = add_edge_spec(m, a, b);
    assert(m1.edges == mb.edges.push((ha, hb)));
    assert(forall|k: int| 0 <= k < m.edges.len() ==> m1.edges[k] == m.edges[k]);
    assert(ha < mb.labels.len() && hb < mb.labels.len());
    assert(m1.inv());
}

/// Bijection through edge recording: one edge registers exactly its two
/// endpoint labels, and the number of distinct labels still equals the
/// number of handles in use.
pub proof fn lemma_bijection_add_edge(m: StoreView, a: Seq<u8>, b: Seq<u8>)
    requires
        m.inv(),
    ensures
        ({
            let m1 = add_edge_spec(m, a, b);
            &&& m1.labels.to_set() == m.labels.to_set().insert(a).insert(b)
            &&& m1.labels.to_set().len() == m1.labels.len()
        }),
{
    let (ma, ha) = intern_spec(m, a);
    lemma_bijection(m, a);
    lemma_intern_props(m, a);
    let (mb, hb) = intern_spec(ma, b);
    lemma_bijection(ma, b);
    lemma_intern_props(ma, b);
    assert(mb.labels.no_duplicates());
    mb.labels.unique_seq_to_set();
}

/// Multiplicity preserved: recording the same edge twice appends two edge
/// entries with the same handle pair, never one.
pub proof fn lemma_edge_multiplicity(m: StoreView, a: Seq<u8>, b: Seq<u8>)
    requires
        m.inv(),
    ensures
        ({
            let m1 = add_edge_spec(m, a, b);
            let m2 = add_edge_spec(m1, a, b);
            &&& m2.edges.len() == m.edges.len() + 2
            &&& m2.edges[m2.edges.len() - 1] == m2.edges[m2.edges.len() - 2]
        }),
{
    let (ma, ha) = intern_spec(m, a);
    lemma_intern_props(m, a);
    let (mb, hb) = intern_spec(ma, b);
    lemma_intern_props(ma, b);
    let m1 = add_edge_spec(m, a, b);
    assert(m1.inv()) by {
        assert(forall|k: int|
            0 <= k < mb.edges.len() ==> (#[trigger] mb.edges[k]) == m.edges[k]);
    }
    assert(m1.labels == mb.labels);
    assert(m1.labels[ha] == a && m1.labels[hb] == b) by {
        assert(mb.labels[ha] == ma.labels[ha]);
    }
    lemma_handle_unique(m1, a, ha);
    lemma_handle_unique(m1, b, hb);
    let m2 = add_edge_spec(m1, a, b);
    assert(m2.edges == m1.edges.push((ha, hb)));
    assert(m1.edges == m.edges.push((ha, hb)));
}

/// Self-loops permitted: an edge from a label to itself is recorded as one
/// edge entry whose source and target handles are equal, so its endpoint
/// numeric representations are equal as well.
pub proof fn lemma_self_loop(m: StoreView, a: Seq<u8>)
    requires
        m.inv(),
    ensures
        ({
            let m1 = add_edge_spec(m, a, a);
            &&& m1.edges.len() == m.edges.len() + 1
            &&& m1.edges.last().0 == m1.edges.last().1
        }),
{
    let (ma, ha) = intern_spec(m, a);
    lemma_intern_props(m, a);
    lemma_handle_unique(ma, a, ha);
}

} // verus!
