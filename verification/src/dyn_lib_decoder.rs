//! The form in which a decoder plugin takes a problem: compressed rows.
use crate::hypergraph::{DecodingHypergraph, Hyperedge};
use crate::probability::Probability;
use vstd::prelude::*;

verus! {

/// The hyperedges of a problem in compressed rows: the vertices of all hyperedges one
/// after the other, and where those of each hyperedge end.
#[derive(Debug)]
pub struct CompressedRows {
    pub vertex_num: u64,
    pub edge_probs: Vec<Probability>,
    pub edge_offsets: Vec<u64>,
    pub edge_vertices: Vec<u64>,
}

/// The vertices of the first `n` hyperedges.
pub open spec fn vertices_upto(edges: Seq<Hyperedge>, n: int) -> Seq<u64>
    decreases n,
{
    if n <= 0 {
        Seq::empty()
    } else {
        vertices_upto(edges, n - 1) + edges[n - 1].vertices@
    }
}

/// The compressed rows of a problem.
pub open spec fn are_rows(hypergraph: DecodingHypergraph, rows: CompressedRows) -> bool {
    let edges = hypergraph.hyperedges@;
    &&& rows.vertex_num == hypergraph.vertex_num
    &&& rows.edge_probs@ == edges.map_values(|e: Hyperedge| e.probability)
    &&& rows.edge_offsets@.len() == edges.len() + 1
    &&& forall|i: int| 0 <= i <= edges.len() ==> #[trigger] rows.edge_offsets@[i] == vertices_upto(edges, i).len()
    &&& rows.edge_vertices@ == vertices_upto(edges, edges.len() as int)
}

/// Compresses a problem.
pub fn compress(hypergraph: &DecodingHypergraph) -> (rows: CompressedRows)
    ensures
        are_rows(*hypergraph, rows),
{
    let ghost edges = hypergraph.hyperedges@;
    let ghost probabilities = edges.map_values(|e: Hyperedge| e.probability);
    let mut edge_probs: Vec<Probability> = Vec::new();
    let mut edge_offsets: Vec<u64> = Vec::new();
    let mut edge_vertices: Vec<u64> = Vec::new();
    edge_offsets.push(0);
    let mut n: usize = 0;
    while n < hypergraph.hyperedges.len()
        invariant
            n <= edges.len(),
            edges == hypergraph.hyperedges@,
            probabilities == edges.map_values(|e: Hyperedge| e.probability),
            edge_probs@ =~= probabilities.take(n as int),
            edge_offsets@.len() == n + 1,
            forall|i: int| 0 <= i <= n ==> #[trigger] edge_offsets@[i] == vertices_upto(edges, i).len(),
            edge_vertices@ == vertices_upto(edges, n as int),
        decreases edges.len() - n,
    {
        let edge = &hypergraph.hyperedges[n];
        edge_probs.push(edge.probability);
        let ghost before = edge_vertices@;
        let mut k: usize = 0;
        while k < edge.vertices.len()
            invariant
                k <= edge.vertices@.len(),
                edge_vertices@ =~= before + edge.vertices@.take(k as int),
            decreases edge.vertices@.len() - k,
        {
            edge_vertices.push(edge.vertices[k]);
            k += 1;
        }
        assert(edge_vertices@ =~= before + edge.vertices@);
        edge_offsets.push(edge_vertices.len() as u64);
        n += 1;
    }
    assert(edge_probs@ =~= probabilities);
    CompressedRows { vertex_num: hypergraph.vertex_num, edge_probs, edge_offsets, edge_vertices }
}

/// More hyperedges have no fewer vertices, and keep those before.
proof fn lemma_vertices_upto(edges: Seq<Hyperedge>, a: int, b: int)
    requires
        0 <= a <= b <= edges.len(),
    ensures
        vertices_upto(edges, a).is_prefix_of(vertices_upto(edges, b)),
    decreases b - a,
{
    if a < b {
        lemma_vertices_upto(edges, a, b - 1);
    }
}

/// The vertices of a hyperedge are those between its two offsets.
pub proof fn law_rows_hold_the_hyperedges(hypergraph: DecodingHypergraph, rows: CompressedRows, i: int)
    requires
        are_rows(hypergraph, rows),
        0 <= i < hypergraph.hyperedges@.len(),
    ensures
        rows.edge_offsets@[i] <= rows.edge_offsets@[i + 1] <= rows.edge_vertices@.len(),
        rows.edge_vertices@.subrange(rows.edge_offsets@[i] as int, rows.edge_offsets@[i + 1] as int)
            == hypergraph.hyperedges@[i].vertices@,
{
    let edges = hypergraph.hyperedges@;
    lemma_vertices_upto(edges, i + 1, edges.len() as int);
    let (start, end) = (vertices_upto(edges, i), vertices_upto(edges, i + 1));
    assert(end == start + edges[i].vertices@);
    assert(rows.edge_vertices@.subrange(start.len() as int, end.len() as int) =~= edges[i].vertices@) by {
        assert forall|k: int| 0 <= k < edges[i].vertices@.len() implies rows.edge_vertices@[start.len() + k] == edges[i].vertices@[k] by {
            assert(end[start.len() + k] == edges[i].vertices@[k]);
        }
    }
}

} // verus!
