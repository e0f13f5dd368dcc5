//! The corpus scanner: finds every cross-reference in a document's text and
//! feeds one node and zero or more edges to the interning store.
//!
//! A cross-reference is an occurrence of one uppercase letter immediately
//! followed by six or more decimal digits, matched left to right over the
//! document, non-overlapping, each match taking as many digits as it can.

use crate::label::{copy_bytes, is_digit_byte, is_upper_byte};
use crate::store::{
    add_edge_spec, intern_spec, lemma_add_edge_props, lemma_intern_props, Store, StoreView,
};
use vstd::prelude::*;

verus! {

/// The end of the run of digit bytes that starts at `j`: the first index at
/// or after `j` that is past the end or holds a non-digit byte.
pub open spec fn run_end(s: Seq<u8>, j: int) -> int
    decreases s.len() - j
    when 0 <= j <= s.len()
{
    if j < s.len() && is_digit_byte(s[j]) {
        run_end(s, j + 1)
    } else {
        j
    }
}

/// The digit run from `j` ends within the sequence, covers digits only, and
/// stops at the end or at a non-digit.
pub proof fn lemma_run_end(s: Seq<u8>, j: int)
    requires
        0 <= j <= s.len(),
    ensures
        j <= run_end(s, j) <= s.len(),
        forall|k: int| j <= k < run_end(s, j) ==> is_digit_byte(s[k]),
        run_end(s, j) == s.len() || !is_digit_byte(s[run_end(s, j)]),
    decreases s.len() - j,
{
    if j < s.len() && is_digit_byte(s[j]) {
        lemma_run_end(s, j + 1);
    }
}

/// The digit run's end is the unique position with those properties.
pub proof fn lemma_run_end_unique(s: Seq<u8>, j: int, e: int)
    requires
        0 <= j <= e <= s.len(),
        forall|k: int| j <= k < e ==> is_digit_byte(s[k]),
        e == s.len() || !is_digit_byte(s[e]),
    ensures
        run_end(s, j) == e,
    decreases e - j,
{
    if j < e {
        lemma_run_end_unique(s, j + 1, e);
    }
}

/// A cross-reference match starts at `i`: an uppercase letter immediately
/// followed by at least six decimal digits.
pub open spec fn match_at(s: Seq<u8>, i: int) -> bool {
    &&& 0 <= i
    &&& i + 7 <= s.len()
    &&& is_upper_byte(s[i])
    &&& forall|k: int| i < k < i + 7 ==> is_digit_byte(s[k])
}

/// The references found from position `p` on: at the leftmost match the
/// matched bytes (greedy: up to the end of the digit run) are taken and the
/// search resumes right after them, so matches never overlap.
pub open spec fn matches_from(s: Seq<u8>, p: int) -> Seq<Seq<u8>>
    decreases s.len() - p
    when 0 <= p <= s.len()
    via matches_from_decreases
{
    if p + 7 > s.len() {
        Seq::empty()
    } else if match_at(s, p) {
        seq![s.subrange(p, run_end(s, p + 1))] + matches_from(s, run_end(s, p + 1))
    } else {
        matches_from(s, p + 1)
    }
}

#[via_fn]
proof fn matches_from_decreases(s: Seq<u8>, p: int) {
    if p + 7 <= s.len() && match_at(s, p) {
        lemma_run_end(s, p + 1);
        let e = run_end(s, p + 1);
        if e < p + 7 {
            assert(is_digit_byte(s[e]));
        }
    }
}

/// Every cross-reference in a document, in order of first position.
pub open spec fn references_of(s: Seq<u8>) -> Seq<Seq<u8>> {
    matches_from(s, 0)
}

/// Each match takes at least seven bytes, so a document of `n` bytes holds
/// at most `n / 7` references.
pub proof fn lemma_matches_count(s: Seq<u8>, p: int)
    requires
        0 <= p <= s.len(),
    ensures
        7 * matches_from(s, p).len() <= s.len() - p,
    decreases s.len() - p,
{
    if p + 7 > s.len() {
    } else if match_at(s, p) {
        lemma_run_end(s, p + 1);
        let e = run_end(s, p + 1);
        if e < p + 7 {
            assert(is_digit_byte(s[e]));
        }
        lemma_matches_count(s, e);
    } else {
        lemma_matches_count(s, p + 1);
    }
}

/// A well-formed reference: one uppercase letter followed by six or more
/// decimal digits.
pub open spec fn reference_shape(m: Seq<u8>) -> bool {
    &&& m.len() >= 7
    &&& is_upper_byte(m[0])
    &&& forall|k: int| 1 <= k < m.len() ==> is_digit_byte(m[k])
}

/// Every match found from `p` on has the reference shape.
pub proof fn lemma_matches_shape(s: Seq<u8>, p: int)
    requires
        0 <= p <= s.len(),
    ensures
        forall|i: int|
            0 <= i < matches_from(s, p).len() ==> reference_shape(
                #[trigger] matches_from(s, p)[i],
            ),
    decreases s.len() - p,
{
    if p + 7 > s.len() {
    } else if match_at(s, p) {
        lemma_run_end(s, p + 1);
        let e = run_end(s, p + 1);
        if e < p + 7 {
            assert(is_digit_byte(s[e]));
        }
        lemma_matches_shape(s, e);
        let ms = matches_from(s, p);
        let sub = s.subrange(p, e);
        assert(ms == seq![sub] + matches_from(s, e));
        assert forall|i: int| 0 <= i < ms.len() implies reference_shape(#[trigger] ms[i]) by {
            if i == 0 {
                assert(ms[0] == sub);
                assert(sub.len() == e - p);
                assert(is_upper_byte(sub[0]));
                assert forall|k: int| 1 <= k < sub.len() implies is_digit_byte(sub[k]) by {
                    assert(sub[k] == s[p + k]);
                }
            } else {
                assert(ms[i] == matches_from(s, e)[i - 1]);
            }
        }
    } else {
        lemma_matches_shape(s, p + 1);
        assert(matches_from(s, p) == matches_from(s, p + 1));
    }
}

/// Pattern boundary: every reference a document yields is an uppercase
/// letter followed by at least six digits, so a shorter mention (fewer
/// than seven bytes) never becomes a reference and produces no edge.
pub proof fn lemma_references_well_formed(s: Seq<u8>)
    ensures
        forall|i: int|
            0 <= i < references_of(s).len() ==> reference_shape(#[trigger] references_of(s)[i]),
{
    lemma_matches_shape(s, 0);
}

/// The byte strings a vector of matches holds, as sequences.
pub open spec fn found_views(v: Seq<Vec<u8>>) -> Seq<Seq<u8>> {
    Seq::new(v.len(), |i: int| v[i]@)
}

/// Finds every cross-reference in `content`, exactly as [`references_of`]
/// describes it.
pub fn find_references(content: &Vec<u8>) -> (r: Vec<Vec<u8>>)
    ensures
        found_views(r@) == references_of(content@),
{
    let ghost s = content@;
    let n = content.len();
    let mut out: Vec<Vec<u8>> = Vec::new();
    let mut p: usize = 0;
    while p < n && n - p >= 7
        invariant
            n == s.len(),
            s == content@,
            p <= n,
            found_views(out@) + matches_from(s, p as int) == references_of(s),
        decreases n - p,
    {
        let b = content[p];
        if 0x41 <= b && b <= 0x5A {
            let mut e = p + 1;
            while e < n && 0x30 <= content[e] && content[e] <= 0x39
                invariant
                    n == s.len(),
                    s == content@,
                    p + 1 <= e <= n,
                    forall|k: int| p < k < e ==> is_digit_byte(s[k]),
                decreases n - e,
            {
                e += 1;
            }
            proof {
                lemma_run_end_unique(s, p as int + 1, e as int);
            }
            if e - p >= 7 {
                assert(match_at(s, p as int));
                let ghost out0 = out@;
                let mut m: Vec<u8> = Vec::new();
                let mut k = p;
                while k < e
                    invariant
                        n == s.len(),
                        s == content@,
                        p <= k <= e <= n,
                        m@ == s.subrange(p as int, k as int),
                    decreases e - k,
                {
                    m.push(content[k]);
                    assert(m@ =~= s.subrange(p as int, k as int + 1));
                    k += 1;
                }
                out.push(m);
                proof {
                    assert(found_views(out@) =~= found_views(out0).push(
                        s.subrange(p as int, e as int),
                    ));
                    assert(matches_from(s, p as int) == seq![s.subrange(p as int, e as int)]
                        + matches_from(s, e as int));
                    assert(found_views(out@) + matches_from(s, e as int) =~= found_views(out0)
                        + matches_from(s, p as int));
                }
                p = e;
            } else {
                proof {
                    assert(p as int + 1 <= e < p + 7 <= n);
                    assert(!is_digit_byte(s[e as int]));
                    assert(!match_at(s, p as int));
                    assert(matches_from(s, p as int) == matches_from(s, p as int + 1));
                }
                p += 1;
            }
        } else {
            proof {
                assert(!is_upper_byte(s[p as int]));
                assert(!match_at(s, p as int));
                assert(matches_from(s, p as int) == matches_from(s, p as int + 1));
            }
            p += 1;
        }
    }
    proof {
        assert(matches_from(s, p as int) =~= Seq::<Seq<u8>>::empty());
        assert(found_views(out@) =~= references_of(s));
    }
    out
}

/// Scanning one document: register its label as a node, then record one
/// edge per reference found in its content, in match order.
pub open spec fn scan_refs_spec(m: StoreView, doc: Seq<u8>, refs: Seq<Seq<u8>>) -> StoreView
    decreases refs.len(),
{
    if refs.len() == 0 {
        m
    } else {
        scan_refs_spec(add_edge_spec(m, doc, refs[0]), doc, refs.drop_first())
    }
}

/// What scanning a whole document does to the store.
pub open spec fn scan_spec(m: StoreView, doc: Seq<u8>, content: Seq<u8>) -> StoreView {
    scan_refs_spec(intern_spec(m, doc).0, doc, references_of(content))
}

/// Scans one document: registers `label` as a node even when the content
/// holds no reference, then records one edge from `label` to each reference
/// found in `content`, repeated mentions and self-references included.
pub fn scan_document(store: &mut Store, label: Vec<u8>, content: &Vec<u8>)
    requires
        old(store).wf(),
        old(store)@.labels.len() + content@.len() + 2 <= 0xFFFF_FFFF,
        old(store)@.edges.len() + content@.len() <= 0xFFFF_FFFF,
    ensures
        final(store).wf(),
        final(store)@ == scan_spec(old(store)@, label@, content@),
{
    let ghost m0 = old(store)@;
    let refs = find_references(content);
    let ghost rseq = references_of(content@);
    proof {
        lemma_matches_count(content@, 0);
    }
    let _ = store.get_or_create(copy_bytes(&label));
    let ghost m1 = store@;
    let ghost target = scan_spec(m0, label@, content@);
    proof {
        assert(m1 == intern_spec(m0, label@).0);
        assert(rseq.skip(0) =~= rseq);
    }
    let mut i: usize = 0;
    let count = refs.len();
    while i < count
        invariant
            store.wf(),
            count == refs@.len(),
            i <= count,
            found_views(refs@) == rseq,
            rseq == references_of(content@),
            7 * rseq.len() <= content@.len(),
            scan_refs_spec(store@, label@, rseq.skip(i as int)) == target,
            store@.labels.len() <= m1.labels.len() + 2 * i,
            store@.edges.len() == m1.edges.len() + i,
            m1.labels.len() <= m0.labels.len() + 1,
            m1.edges.len() == m0.edges.len(),
            m0.labels.len() + content@.len() + 2 <= 0xFFFF_FFFF,
            m0.edges.len() + content@.len() <= 0xFFFF_FFFF,
        decreases count - i,
    {
        let ghost prev = store@;
        proof {
            store.lemma_wf_inv();
        }
        assert(rseq[i as int] == refs@[i as int]@);
        store.add_edge(copy_bytes(&label), copy_bytes(&refs[i]));
        proof {
            lemma_intern_props(prev, label@);
            lemma_intern_props(intern_spec(prev, label@).0, rseq[i as int]);
            assert(rseq.skip(i as int).drop_first() =~= rseq.skip(i as int + 1));
            assert(rseq.skip(i as int)[0] == rseq[i as int]);
            assert(scan_refs_spec(prev, label@, rseq.skip(i as int)) == scan_refs_spec(
                store@,
                label@,
                rseq.skip(i as int + 1),
            ));
        }
        i += 1;
    }
    proof {
        assert(rseq.skip(count as int) =~= Seq::<Seq<u8>>::empty());
    }
}

/// Scanning preserves the invariant, keeps every already registered label
/// at its handle, and appends exactly one edge per reference.
pub proof fn lemma_scan_refs_edge_count(m: StoreView, doc: Seq<u8>, refs: Seq<Seq<u8>>)
    requires
        m.inv(),
    ensures
        ({
            let m1 = scan_refs_spec(m, doc, refs);
            &&& m1.inv()
            &&& m1.edges.len() == m.edges.len() + refs.len()
            &&& m.labels.len() <= m1.labels.len()
            &&& forall|i: int| 0 <= i < m.labels.len() ==> m1.labels[i] == m.labels[i]
        }),
    decreases refs.len(),
{
    if refs.len() > 0 {
        lemma_add_edge_props(m, doc, refs[0]);
        lemma_scan_refs_edge_count(add_edge_spec(m, doc, refs[0]), doc, refs.drop_first());
    }
}

/// Scanning a whole document appends exactly one edge per reference found
/// in its content.
pub proof fn lemma_scan_spec_edge_count(m: StoreView, doc: Seq<u8>, content: Seq<u8>)
    requires
        m.inv(),
    ensures
        scan_spec(m, doc, content).edges.len() == m.edges.len() + references_of(content).len(),
{
    lemma_intern_props(m, doc);
    lemma_scan_refs_edge_count(intern_spec(m, doc).0, doc, references_of(content));
}

} // verus!
