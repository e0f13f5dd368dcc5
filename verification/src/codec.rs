//! The compact binary exporter and its decoder. Each record is a tag byte,
//! a fixed-length little-endian payload, and a cosmetic terminator byte; a
//! reader determines record length from the tag alone and never
//! resynchronizes on the terminator, whose value can occur inside payloads.

use crate::label::{copy_bytes, represent, represent_spec};
use crate::store::{Store, StoreView};
use vstd::prelude::*;

verus! {

/// The compact exporter's failure: the typed, fail-fast error the export
/// aborts with.
#[derive(Debug, PartialEq, Eq)]
pub enum ExportError {
    /// A registered label has no numeric representation; carries that label.
    MalformedLabel(Vec<u8>),
}

/// The value of four little-endian bytes.
pub open spec fn le_val(b0: u8, b1: u8, b2: u8, b3: u8) -> u32 {
    (b0 as u32) | ((b1 as u32) << 8) | ((b2 as u32) << 16) | ((b3 as u32) << 24)
}

/// A node record: tag 1, four little-endian bytes of the node's numeric
/// representation, a terminator. Six bytes in all.
pub open spec fn node_record(x: u32) -> Seq<u8> {
    seq![
        1u8,
        (x & 0xFF) as u8,
        ((x >> 8) & 0xFF) as u8,
        ((x >> 16) & 0xFF) as u8,
        ((x >> 24) & 0xFF) as u8,
        0x0Au8,
    ]
}

/// An edge record: tag 0, four little-endian bytes each for the source and
/// target representations, a terminator. Ten bytes in all.
pub open spec fn edge_record(a: u32, b: u32) -> Seq<u8> {
    seq![
        0u8,
        (a & 0xFF) as u8,
        ((a >> 8) & 0xFF) as u8,
        ((a >> 16) & 0xFF) as u8,
        ((a >> 24) & 0xFF) as u8,
        (b & 0xFF) as u8,
        ((b >> 8) & 0xFF) as u8,
        ((b >> 16) & 0xFF) as u8,
        ((b >> 24) & 0xFF) as u8,
        0x0Au8,
    ]
}

/// Reading back the four little-endian bytes of a value yields the value.
pub proof fn lemma_le_round(x: u32)
    ensures
        le_val(
            (x & 0xFF) as u8,
            ((x >> 8) & 0xFF) as u8,
            ((x >> 16) & 0xFF) as u8,
            ((x >> 24) & 0xFF) as u8,
        ) == x,
{
    assert((((x & 0xFF) as u8) as u32) | ((((x >> 8) & 0xFF) as u8) as u32) << 8 | ((((x >> 16)
        & 0xFF) as u8) as u32) << 16 | ((((x >> 24) & 0xFF) as u8) as u32) << 24 == x)
        by (bit_vector);
}

/// Every registered label has a numeric representation.
pub open spec fn all_representable(m: StoreView) -> bool {
    forall|i: int| 0 <= i < m.labels.len() ==> represent_spec(#[trigger] m.labels[i]) is Some
}

/// The node numeric representations, in handle order.
pub open spec fn node_reps(m: StoreView) -> Seq<u32> {
    Seq::new(m.labels.len(), |i: int| represent_spec(m.labels[i]).unwrap())
}

/// The edge endpoint representations, in insertion order.
pub open spec fn edge_reps(m: StoreView) -> Seq<(u32, u32)> {
    Seq::new(
        m.edges.len(),
        |k: int|
            (
                represent_spec(m.labels[m.edges[k].0]).unwrap(),
                represent_spec(m.labels[m.edges[k].1]).unwrap(),
            ),
    )
}

/// The concatenated node records.
pub open spec fn encode_nodes(reps: Seq<u32>) -> Seq<u8>
    decreases reps.len(),
{
    if reps.len() == 0 {
        Seq::empty()
    } else {
        node_record(reps[0]) + encode_nodes(reps.drop_first())
    }
}

/// The concatenated edge records.
pub open spec fn encode_edges(pairs: Seq<(u32, u32)>) -> Seq<u8>
    decreases pairs.len(),
{
    if pairs.len() == 0 {
        Seq::empty()
    } else {
        edge_record(pairs[0].0, pairs[0].1) + encode_edges(pairs.drop_first())
    }
}

/// The compact byte stream of a finished graph: all node records in handle
/// order, then all edge records in insertion order. No header, no count.
pub open spec fn encode_spec(m: StoreView) -> Seq<u8> {
    encode_nodes(node_reps(m)) + encode_edges(edge_reps(m))
}

proof fn lemma_encode_nodes_snoc(reps: Seq<u32>, x: u32)
    ensures
        encode_nodes(reps.push(x)) == encode_nodes(reps) + node_record(x),
    decreases reps.len(),
{
    if reps.len() == 0 {
        assert(reps.push(x).drop_first() =~= Seq::<u32>::empty());
        assert(reps.push(x)[0] == x);
        assert(encode_nodes(Seq::<u32>::empty()) =~= Seq::<u8>::empty());
        assert(reps =~= Seq::<u32>::empty());
        assert(encode_nodes(reps.push(x)) =~= encode_nodes(reps) + node_record(x));
    } else {
        assert(reps.push(x).drop_first() =~= reps.drop_first().push(x));
        lemma_encode_nodes_snoc(reps.drop_first(), x);
        assert(reps.push(x)[0] == reps[0]);
        assert(encode_nodes(reps.push(x)) == node_record(reps[0]) + encode_nodes(
            reps.drop_first().push(x),
        ));
        assert(encode_nodes(reps) == node_record(reps[0]) + encode_nodes(reps.drop_first()));
        assert((node_record(reps[0]) + encode_nodes(reps.drop_first())) + node_record(x)
            =~= node_record(reps[0]) + (encode_nodes(reps.drop_first()) + node_record(x)));
        assert(encode_nodes(reps.push(x)) =~= encode_nodes(reps) + node_record(x));
    }
}

proof fn lemma_encode_edges_snoc(pairs: Seq<(u32, u32)>, p: (u32, u32))
    ensures
        encode_edges(pairs.push(p)) == encode_edges(pairs) + edge_record(p.0, p.1),
    decreases pairs.len(),
{
    if pairs.len() == 0 {
        assert(pairs.push(p).drop_first() =~= Seq::<(u32, u32)>::empty());
        assert(pairs.push(p)[0] == p);
        assert(encode_edges(Seq::<(u32, u32)>::empty()) =~= Seq::<u8>::empty());
        assert(pairs =~= Seq::<(u32, u32)>::empty());
        assert(encode_edges(pairs.push(p)) =~= encode_edges(pairs) + edge_record(p.0, p.1));
    } else {
        assert(pairs.push(p).drop_first() =~= pairs.drop_first().push(p));
        lemma_encode_edges_snoc(pairs.drop_first(), p);
        assert(pairs.push(p)[0] == pairs[0]);
        assert(encode_edges(pairs.push(p)) == edge_record(pairs[0].0, pairs[0].1) + encode_edges(
            pairs.drop_first().push(p),
        ));
        assert(encode_edges(pairs) == edge_record(pairs[0].0, pairs[0].1) + encode_edges(
            pairs.drop_first(),
        ));
        assert((edge_record(pairs[0].0, pairs[0].1) + encode_edges(pairs.drop_first()))
            + edge_record(p.0, p.1) =~= edge_record(pairs[0].0, pairs[0].1) + (encode_edges(
            pairs.drop_first(),
        ) + edge_record(p.0, p.1)));
        assert(encode_edges(pairs.push(p)) =~= encode_edges(pairs) + edge_record(p.0, p.1));
    }
}

/// Byte-exact size law for the node part: six bytes per node record.
pub proof fn lemma_encode_nodes_len(reps: Seq<u32>)
    ensures
        encode_nodes(reps).len() == 6 * reps.len(),
    decreases reps.len(),
{
    if reps.len() > 0 {
        lemma_encode_nodes_len(reps.drop_first());
    }
}

/// Byte-exact size law for the edge part: ten bytes per edge record.
pub proof fn lemma_encode_edges_len(pairs: Seq<(u32, u32)>)
    ensures
        encode_edges(pairs).len() == 10 * pairs.len(),
    decreases pairs.len(),
{
    if pairs.len() > 0 {
        lemma_encode_edges_len(pairs.drop_first());
    }
}

/// Decoding a compact byte stream by tag dispatch and fixed record lengths:
/// the node values and edge pairs read, or `None` when the stream does not
/// fall into whole records. The terminator position is not inspected.
pub open spec fn decode_spec(s: Seq<u8>) -> Option<(Seq<u32>, Seq<(u32, u32)>)>
    decreases s.len(),
{
    if s.len() == 0 {
        Some((Seq::empty(), Seq::empty()))
    } else if s[0] == 1 && s.len() >= 6 {
        match decode_spec(s.skip(6)) {
            Some(rest) => Some((seq![le_val(s[1], s[2], s[3], s[4])] + rest.0, rest.1)),
            None => None,
        }
    } else if s[0] == 0 && s.len() >= 10 {
        match decode_spec(s.skip(10)) {
            Some(rest) => Some(
                (
                    rest.0,
                    seq![(le_val(s[1], s[2], s[3], s[4]), le_val(s[5], s[6], s[7], s[8]))]
                        + rest.1,
                ),
            ),
            None => None,
        }
    } else {
        None
    }
}

proof fn lemma_decode_edges(pairs: Seq<(u32, u32)>)
    ensures
        decode_spec(encode_edges(pairs)) == Some((Seq::<u32>::empty(), pairs)),
    decreases pairs.len(),
{
    if pairs.len() == 0 {
        assert(encode_edges(pairs).len() == 0);
        assert(pairs =~= Seq::<(u32, u32)>::empty());
    } else {
        let a = pairs[0].0;
        let b = pairs[0].1;
        let rec = edge_record(a, b);
        let tail = encode_edges(pairs.drop_first());
        let s = encode_edges(pairs);
        assert(s == rec + tail);
        assert(rec.len() == 10);
        assert(s.len() >= 10);
        assert(s[0] == rec[0] && s[1] == rec[1] && s[2] == rec[2] && s[3] == rec[3] && s[4]
            == rec[4] && s[5] == rec[5] && s[6] == rec[6] && s[7] == rec[7] && s[8] == rec[8]);
        assert(s.skip(10) =~= tail);
        lemma_decode_edges(pairs.drop_first());
        lemma_le_round(a);
        lemma_le_round(b);
        assert(le_val(s[1], s[2], s[3], s[4]) == a);
        assert(le_val(s[5], s[6], s[7], s[8]) == b);
        assert(seq![(a, b)] + pairs.drop_first() =~= pairs);
    }
}

proof fn lemma_decode_stream(reps: Seq<u32>, pairs: Seq<(u32, u32)>)
    ensures
        decode_spec(encode_nodes(reps) + encode_edges(pairs)) == Some((reps, pairs)),
    decreases reps.len(),
{
    if reps.len() == 0 {
        assert(encode_nodes(reps) + encode_edges(pairs) =~= encode_edges(pairs));
        lemma_decode_edges(pairs);
    } else {
        let x = reps[0];
        let rec = node_record(x);
        let tail = encode_nodes(reps.drop_first()) + encode_edges(pairs);
        let s = encode_nodes(reps) + encode_edges(pairs);
        assert(s =~= rec + tail);
        assert(rec.len() == 6);
        assert(s.len() >= 6);
        assert(s[0] == rec[0] && s[1] == rec[1] && s[2] == rec[2] && s[3] == rec[3] && s[4]
            == rec[4]);
        assert(s.skip(6) =~= tail);
        lemma_decode_stream(reps.drop_first(), pairs);
        lemma_le_round(x);
        assert(le_val(s[1], s[2], s[3], s[4]) == x);
        assert(seq![x] + reps.drop_first() =~= reps);
    }
}

/// Round-trip: decoding a produced compact stream reconstructs exactly the
/// node representation sequence and the edge pair sequence that were
/// written, hence the same node id set and the same edge pair multiset.
pub proof fn lemma_round_trip(m: StoreView)
    ensures
        decode_spec(encode_spec(m)) == Some((node_reps(m), edge_reps(m))),
{
    lemma_decode_stream(node_reps(m), edge_reps(m));
}

/// Serializes the finished graph to the compact byte format. Succeeds, with
/// the exact byte stream of [`encode_spec`] and hence exactly
/// `6 * nodes + 10 * edges` bytes, if and only if every registered label
/// has a numeric representation; otherwise reports the first label in
/// handle order that has none.
pub fn export_compact(store: &Store) -> (r: Result<Vec<u8>, ExportError>)
    requires
        store.wf(),
    ensures
        r is Ok <==> all_representable(store@),
        r matches Ok(v) ==> v@ == encode_spec(store@) && v@.len() == 6 * store@.labels.len()
            + 10 * store@.edges.len(),
        r matches Err(e) ==> e matches ExportError::MalformedLabel(bad) && (exists|i: int|
            #![auto]
            {
                &&& 0 <= i < store@.labels.len()
                &&& bad@ == store@.labels[i]
                &&& represent_spec(store@.labels[i]) is None
                &&& forall|j: int| 0 <= j < i ==> represent_spec(#[trigger] store@.labels[j]) is Some
            }),
{
    proof {
        store.lemma_wf_inv();
    }
    let labels = store.node_labels();
    let edges = store.edge_list();
    let ghost m = store@;
    let n = labels.len();
    let mut reps: Vec<u32> = Vec::new();
    let mut out: Vec<u8> = Vec::new();
    let mut i: usize = 0;
    while i < n
        invariant
            n == m.labels.len(),
            m == store@,
            store.wf(),
            labels@.len() == n,
            forall|j: int| 0 <= j < n ==> (#[trigger] labels@[j])@ == m.labels[j],
            i <= n,
            reps@.len() == i,
            forall|j: int|
                0 <= j < i ==> represent_spec(#[trigger] m.labels[j]) is Some && reps@[j]
                    == represent_spec(m.labels[j]).unwrap(),
            out@ == encode_nodes(node_reps(m).take(i as int)),
        decreases n - i,
    {
        let lab = &labels[i];
        match represent(lab) {
            None => {
                let bad = copy_bytes(lab);
                proof {
                    assert(represent_spec(m.labels[i as int]) is None);
                }
                return Err(ExportError::MalformedLabel(bad));
            },
            Some(x) => {
                let ghost out0 = out@;
                reps.push(x);
                out.push(1u8);
                out.push((x & 0xFF) as u8);
                out.push(((x >> 8) & 0xFF) as u8);
                out.push(((x >> 16) & 0xFF) as u8);
                out.push(((x >> 24) & 0xFF) as u8);
                out.push(0x0Au8);
                proof {
                    assert(out@ =~= out0 + node_record(x));
                    lemma_encode_nodes_snoc(node_reps(m).take(i as int), x);
                    assert(x == represent_spec(m.labels[i as int]).unwrap());
                    assert(node_reps(m).take(i as int).push(x) =~= node_reps(m).take(
                        i as int + 1,
                    ));
                }
                i += 1;
            },
        }
    }
    proof {
        assert(node_reps(m).take(n as int) =~= node_reps(m));
    }
    let ecount = edges.len();
    let mut k: usize = 0;
    while k < ecount
        invariant
            n == m.labels.len(),
            m == store@,
            store.wf(),
            m.inv(),
            ecount == m.edges.len(),
            edges@.len() == ecount,
            forall|t: int|
                0 <= t < ecount ==> (#[trigger] edges@[t]).0 == m.edges[t].0 && edges@[t].1
                    == m.edges[t].1,
            reps@.len() == n,
            forall|j: int|
                0 <= j < n ==> represent_spec(#[trigger] m.labels[j]) is Some && reps@[j]
                    == represent_spec(m.labels[j]).unwrap(),
            k <= ecount,
            out@ == encode_nodes(node_reps(m)) + encode_edges(edge_reps(m).take(k as int)),
        decreases ecount - k,
    {
        let edge = edges[k];
        let ra = reps[edge.0];
        let rb = reps[edge.1];
        let ghost out0 = out@;
        out.push(0u8);
        out.push((ra & 0xFF) as u8);
        out.push(((ra >> 8) & 0xFF) as u8);
        out.push(((ra >> 16) & 0xFF) as u8);
        out.push(((ra >> 24) & 0xFF) as u8);
        out.push((rb & 0xFF) as u8);
        out.push(((rb >> 8) & 0xFF) as u8);
        out.push(((rb >> 16) & 0xFF) as u8);
        out.push(((rb >> 24) & 0xFF) as u8);
        out.push(0x0Au8);
        proof {
            assert(out@ =~= out0 + edge_record(ra, rb));
            lemma_encode_edges_snoc(edge_reps(m).take(k as int), (ra, rb));
            assert(edge_reps(m)[k as int] == (ra, rb));
            assert(edge_reps(m).take(k as int).push((ra, rb)) =~= edge_reps(m).take(
                k as int + 1,
            ));
        }
        k += 1;
    }
    proof {
        assert(edge_reps(m).take(ecount as int) =~= edge_reps(m));
        lemma_encode_nodes_len(node_reps(m));
        lemma_encode_edges_len(edge_reps(m));
    }
    Ok(out)
}

/// A decoded compact stream: the node representations and the edge pairs,
/// each in the order read.
#[derive(Debug, PartialEq, Eq)]
pub struct DecodedGraph {
    pub nodes: Vec<u32>,
    pub edges: Vec<(u32, u32)>,
}

/// Splicing already-read records in front of the decoding of a suffix.
pub open spec fn splice(
    acc_nodes: Seq<u32>,
    acc_edges: Seq<(u32, u32)>,
    rest: Option<(Seq<u32>, Seq<(u32, u32)>)>,
) -> Option<(Seq<u32>, Seq<(u32, u32)>)> {
    match rest {
        Some(r) => Some((acc_nodes + r.0, acc_edges + r.1)),
        None => None,
    }
}

/// Decodes a compact byte stream by tag dispatch and fixed record lengths,
/// exactly as [`decode_spec`] describes it: `None` exactly when the stream
/// is not a whole sequence of records.
pub fn decode_compact(bytes: &Vec<u8>) -> (r: Option<DecodedGraph>)
    ensures
        match r {
            Some(d) => decode_spec(bytes@) == Some((d.nodes@, d.edges@)),
            None => decode_spec(bytes@) is None,
        },
{
    let n = bytes.len();
    let mut nodes: Vec<u32> = Vec::new();
    let mut edges: Vec<(u32, u32)> = Vec::new();
    let mut p: usize = 0;
    proof {
        assert(bytes@.skip(0) =~= bytes@);
        let d = decode_spec(bytes@);
        if d is Some {
            let rr = d.unwrap();
            assert(Seq::<u32>::empty() + rr.0 =~= rr.0);
            assert(Seq::<(u32, u32)>::empty() + rr.1 =~= rr.1);
        }
    }
    while p < n
        invariant
            n == bytes@.len(),
            p <= n,
            decode_spec(bytes@) == splice(nodes@, edges@, decode_spec(bytes@.skip(p as int))),
        decreases n - p,
    {
        let ghost suf = bytes@.skip(p as int);
        assert(suf.len() == n - p);
        assert(suf[0] == bytes@[p as int]);
        let tag = bytes[p];
        if tag == 1 {
            if n - p < 6 {
                proof {
                    assert(decode_spec(suf) is None);
                }
                return None;
            }
            let x = (bytes[p + 1] as u32) | ((bytes[p + 2] as u32) << 8) | ((bytes[p + 3] as u32)
                << 16) | ((bytes[p + 4] as u32) << 24);
            let ghost nodes0 = nodes@;
            nodes.push(x);
            proof {
                assert(suf[1] == bytes@[p as int + 1] && suf[2] == bytes@[p as int + 2] && suf[3]
                    == bytes@[p as int + 3] && suf[4] == bytes@[p as int + 4]);
                assert(x == le_val(suf[1], suf[2], suf[3], suf[4]));
                assert(suf.skip(6) =~= bytes@.skip(p as int + 6));
                let rest = decode_spec(bytes@.skip(p as int + 6));
                if rest is Some {
                    let rr = rest.unwrap();
                    assert(decode_spec(suf) == Some((seq![x] + rr.0, rr.1)));
                    assert(nodes0 + (seq![x] + rr.0) =~= (nodes0.push(x)) + rr.0);
                    assert(nodes@ =~= nodes0.push(x));
                } else {
                    assert(decode_spec(suf) is None);
                }
            }
            p += 6;
        } else if tag == 0 {
            if n - p < 10 {
                proof {
                    assert(decode_spec(suf) is None);
                }
                return None;
            }
            let a = (bytes[p + 1] as u32) | ((bytes[p + 2] as u32) << 8) | ((bytes[p + 3] as u32)
                << 16) | ((bytes[p + 4] as u32) << 24);
            let b = (bytes[p + 5] as u32) | ((bytes[p + 6] as u32) << 8) | ((bytes[p + 7] as u32)
                << 16) | ((bytes[p + 8] as u32) << 24);
            let ghost edges0 = edges@;
            edges.push((a, b));
            proof {
                assert(suf[1] == bytes@[p as int + 1] && suf[2] == bytes@[p as int + 2] && suf[3]
                    == bytes@[p as int + 3] && suf[4] == bytes@[p as int + 4] && suf[5]
                    == bytes@[p as int + 5] && suf[6] == bytes@[p as int + 6] && suf[7]
                    == bytes@[p as int + 7] && suf[8] == bytes@[p as int + 8]);
                assert(a == le_val(suf[1], suf[2], suf[3], suf[4]));
                assert(b == le_val(suf[5], suf[6], suf[7], suf[8]));
                assert(suf.skip(10) =~= bytes@.skip(p as int + 10));
                let rest = decode_spec(bytes@.skip(p as int + 10));
                if rest is Some {
                    let rr = rest.unwrap();
                    assert(decode_spec(suf) == Some((rr.0, seq![(a, b)] + rr.1)));
                    assert(edges0 + (seq![(a, b)] + rr.1) =~= (edges0.push((a, b))) + rr.1);
                    assert(edges@ =~= edges0.push((a, b)));
                } else {
                    assert(decode_spec(suf) is None);
                }
            }
            p += 10;
        } else {
            proof {
                assert(suf[0] != 0 && suf[0] != 1);
                assert(decode_spec(suf) is None);
            }
            return None;
        }
    }
    proof {
        assert(bytes@.skip(p as int) =~= Seq::<u8>::empty());
    }
    Some(DecodedGraph { nodes, edges })
}

} // verus!
