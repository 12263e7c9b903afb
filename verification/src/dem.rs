//! Detector-error-model increments.
//!
//! A coordinator records which detectors and error mechanisms each instruction
//! adds. Detectors are known at once; an error mechanism ("edge") may refer to
//! check models of gadgets that do not exist yet. Such error models wait in a
//! pending list, and surface once every slot that matters is resolved *and* every
//! check model it resolves to has been announced, so that no edge is shown before
//! its endpoints.
//!
//! Ids are global: detectors are `(cid, check index)`, edges `(eid, error index)`.
use crate::bin::{copy_errors, errors_view, Error, ErrorModel, ErrorModelType, ErrorSpec, ProbabilityModifier};
use crate::collections::IdSet;
use crate::order::{
    insert_pair_sorted, lemma_pairs_increasing_unique, lemma_strictly_increasing_unique, pairs_increasing, permutation_of,
    strictly_increasing,
};
use crate::probability::Probability;
use vstd::prelude::*;

verus! {

/// The detectors `(cid, 0..count)` that one check model adds to gadget `gid`.
#[derive(Debug, Clone, Copy, PartialEq, Eq, Structural)]
pub struct DemDetectorGroup {
    pub gid: u64,
    pub cid: u64,
    pub count: u64,
}

/// One error mechanism, resolved to global detector ids.
#[derive(Debug, Clone, PartialEq, Eq, Default)]
pub struct DemEdge {
    /// gadget whose error model registration created the edge
    pub gid: u64,
    pub eid: u64,
    pub error_index: u64,
    /// global detector ids, biases applied
    pub detectors: Vec<(u64, u64)>,
    pub probability: Probability,
}

/// The value of a [`DemEdge`].
#[verifier::ext_equal]
pub struct DemEdgeSpec {
    pub gid: u64,
    pub eid: u64,
    pub error_index: u64,
    pub detectors: Seq<(u64, u64)>,
    pub probability: Probability,
}

impl DemEdge {
    /// The edge as a mathematical value.
    pub open spec fn view(self) -> DemEdgeSpec {
        DemEdgeSpec {
            gid: self.gid,
            eid: self.eid,
            error_index: self.error_index,
            detectors: self.detectors@,
            probability: self.probability,
        }
    }
}

/// The values of a list of edges.
pub open spec fn edges_view(edges: Seq<DemEdge>) -> Seq<DemEdgeSpec> {
    edges.map_values(|e: DemEdge| e@)
}

/// Everything that became visible since the previous drain.
#[derive(Debug, Clone, PartialEq, Eq, Default)]
pub struct DemDrain {
    pub detector_groups: Vec<DemDetectorGroup>,
    pub edges: Vec<DemEdge>,
}

/// The report of one decode, in global ids.
#[derive(Debug, Clone, PartialEq, Eq, Default)]
pub struct DemPrediction {
    pub gid: u64,
    /// counter over recorded decodes, assigned when the report is pushed
    pub seq: u64,
    /// every gadget whose syndrome the decode consumed
    pub window_gids: Vec<u64>,
    /// every mechanism of the commit region, fired or not
    pub committed_edges: Vec<(u64, u64)>,
    /// every mechanism of the window outside the commit region
    pub buffer_edges: Vec<(u64, u64)>,
    /// fired mechanisms of the commit region: final
    pub fired: Vec<(u64, u64)>,
    /// fired mechanisms outside the commit region: tentative
    pub fired_buffer: Vec<(u64, u64)>,
    /// detector flips that this decode explains
    pub flips: Vec<(u64, u64)>,
}

// ---------------------------------------------------------------------------
// Flips
// ---------------------------------------------------------------------------

/// Whether `v` occurs an odd number of times in a vertex list.
pub open spec fn occurs_oddly(vertices: Seq<u64>, v: u64) -> bool
    decreases vertices.len(),
{
    if vertices.len() == 0 {
        false
    } else {
        occurs_oddly(vertices.drop_last(), v) != (vertices.last() == v)
    }
}

/// A vertex occurs oddly exactly if an odd number of the entries are this vertex.
pub proof fn law_occurrences_are_counted(vertices: Seq<u64>, v: u64)
    ensures
        occurs_oddly(vertices, v) == (vertices.filter(|x: u64| x == v).len() % 2 == 1),
    decreases vertices.len(),
{
    reveal(Seq::filter);
    if vertices.len() > 0 {
        law_occurrences_are_counted(vertices.drop_last(), v);
    }
}

/// Whether hyperedge `edge` is committed; without a list every one is.
pub open spec fn edge_committed(committed: Option<Seq<bool>>, edge: u64) -> bool {
    committed matches Some(flags) ==> flags[edge as int]
}

/// Whether the fired hyperedges flip vertex `v`: the parity of its occurrences in
/// the fired hyperedges that are committed, or in all of them if the vertex itself
/// lies in the commit region.
pub open spec fn vertex_flips(
    fired: Seq<u64>,
    hyperedges: Seq<Seq<u64>>,
    committed: Option<Seq<bool>>,
    in_commit_region: bool,
    v: u64,
) -> bool
    decreases fired.len(),
{
    if fired.len() == 0 {
        false
    } else {
        vertex_flips(fired.drop_last(), hyperedges, committed, in_commit_region, v) != ((edge_committed(
            committed,
            fired.last(),
        ) || in_commit_region) && occurs_oddly(hyperedges[fired.last() as int], v))
    }
}

/// The check model that owns vertex `v`: the last one whose start is not after it.
pub open spec fn local_cid_of(start_indices: Seq<usize>, v: u64) -> int
    decreases start_indices.len(),
{
    if start_indices.len() == 0 {
        -1
    } else if start_indices.last() <= v {
        start_indices.len() - 1
    } else {
        local_cid_of(start_indices.drop_last(), v)
    }
}

/// Whether vertex `v` lies in the commit region; without a region every one does.
pub open spec fn vertex_committed(
    committing_cids: Option<Set<u64>>,
    start_indices: Seq<usize>,
    global_cid_of: Seq<u64>,
    v: u64,
) -> bool {
    committing_cids matches Some(cids) ==> cids.contains(global_cid_of[local_cid_of(start_indices, v)])
}

/// The global detector id of vertex `v`.
pub open spec fn detector_of_vertex(start_indices: Seq<usize>, global_cid_of: Seq<u64>, v: u64) -> (u64, u64) {
    let lc = local_cid_of(start_indices, v);
    (global_cid_of[lc], (v - start_indices[lc]) as u64)
}

/// Vertex `v` belongs to a check model.
pub open spec fn vertex_owned(start_indices: Seq<usize>, global_cid_of: Seq<u64>, v: u64) -> bool {
    &&& start_indices.len() > 0
    &&& start_indices[0] <= v
    &&& local_cid_of(start_indices, v) < global_cid_of.len()
}

/// The vertex lists of hyperedges.
pub open spec fn vertex_lists(hyperedges: Seq<Vec<u64>>) -> Seq<Seq<u64>> {
    hyperedges.map_values(|h: Vec<u64>| h@)
}

/// The decoded window is laid out so that every fired vertex has an owner.
pub open spec fn flips_layout(
    subgraph: Seq<u64>,
    hyperedges: Seq<Vec<u64>>,
    committed: Option<Seq<bool>>,
    start_indices: Seq<usize>,
    global_cid_of: Seq<u64>,
) -> bool {
    &&& forall|k: int| 0 <= k < subgraph.len() ==> {
        &&& (#[trigger] subgraph[k]) < hyperedges.len()
        &&& committed matches Some(flags) ==> subgraph[k] < flags.len()
    }
    &&& forall|k: int, j: int|
        0 <= k < subgraph.len() && 0 <= j < hyperedges[subgraph[k] as int]@.len() ==> vertex_owned(
            start_indices,
            global_cid_of,
            #[trigger] hyperedges[subgraph[k] as int]@[j],
        )
    &&& forall|i: int, j: int| 0 <= i <= j < start_indices.len() ==> start_indices[i] <= start_indices[j]
}

/// The flips are the detectors of the flipped vertices, in increasing order.
pub open spec fn are_flips(
    flips: Seq<(u64, u64)>,
    subgraph: Seq<u64>,
    hyperedges: Seq<Seq<u64>>,
    committed: Option<Seq<bool>>,
    committing_cids: Option<Set<u64>>,
    start_indices: Seq<usize>,
    global_cid_of: Seq<u64>,
) -> bool {
    &&& pairs_increasing(flips)
    &&& exists|odd: Seq<u64>| #[trigger]
        are_flipped_vertices(odd, subgraph, hyperedges, committed, committing_cids, start_indices, global_cid_of)
            && permutation_of(flips, odd.map_values(|v: u64| detector_of_vertex(start_indices, global_cid_of, v)))
}

/// The vertices that the fired hyperedges flip, in increasing order.
pub open spec fn are_flipped_vertices(
    odd: Seq<u64>,
    subgraph: Seq<u64>,
    hyperedges: Seq<Seq<u64>>,
    committed: Option<Seq<bool>>,
    committing_cids: Option<Set<u64>>,
    start_indices: Seq<usize>,
    global_cid_of: Seq<u64>,
) -> bool {
    &&& strictly_increasing(odd)
    &&& forall|v: u64| #[trigger]
        odd.contains(v) <==> vertex_flips(
            subgraph,
            hyperedges,
            committed,
            vertex_committed(committing_cids, start_indices, global_cid_of, v),
            v,
        )
}

/// Starts up to the owner are not after the vertex, later ones are.
pub proof fn lemma_local_cid_of(start_indices: Seq<usize>, v: u64)
    requires
        forall|i: int, j: int| 0 <= i <= j < start_indices.len() ==> start_indices[i] <= start_indices[j],
    ensures
        -1 <= local_cid_of(start_indices, v) < start_indices.len(),
        forall|i: int| 0 <= i <= local_cid_of(start_indices, v) ==> start_indices[i] <= v,
        forall|i: int| local_cid_of(start_indices, v) < i < start_indices.len() ==> start_indices[i] > v,
    decreases start_indices.len(),
{
    if start_indices.len() > 0 && start_indices.last() > v {
        let rest = start_indices.drop_last();
        lemma_local_cid_of(rest, v);
        assert forall|i: int| local_cid_of(start_indices, v) < i < start_indices.len() implies start_indices[i] > v by {
            if i < rest.len() {
                assert(rest[i] == start_indices[i]);
            }
        }
        assert forall|i: int| 0 <= i <= local_cid_of(start_indices, v) implies start_indices[i] <= v by {
            assert(rest[i] == start_indices[i]);
        }
    }
}

/// Finds the check model that owns a vertex, by bisection.
fn find_local_cid(start_indices: &[usize], v: u64) -> (lc: usize)
    requires
        start_indices@.len() > 0,
        start_indices@[0] <= v,
        forall|i: int, j: int| 0 <= i <= j < start_indices@.len() ==> start_indices@[i] <= start_indices@[j],
    ensures
        lc == local_cid_of(start_indices@, v),
        lc < start_indices@.len(),
        start_indices@[lc as int] <= v,
{
    let mut low: usize = 0;
    let mut high: usize = start_indices.len();
    while high - low > 1
        invariant
            low < high <= start_indices@.len(),
            start_indices@[low as int] <= v,
            forall|i: int| high <= i < start_indices@.len() ==> start_indices@[i] > v,
            forall|i: int, j: int| 0 <= i <= j < start_indices@.len() ==> start_indices@[i] <= start_indices@[j],
        decreases high - low,
    {
        let mid: usize = low + (high - low) / 2;
        if start_indices[mid] as u64 <= v {
            low = mid;
        } else {
            high = mid;
        }
    }
    proof {
        lemma_local_cid_of(start_indices@, v);
        let lc = local_cid_of(start_indices@, v);
        if lc < low {
            assert(start_indices@[low as int] > v);
        }
        if lc > low {
            assert(start_indices@[lc] <= v);
        }
    }
    low
}

/// The vertex flips of the hyperedges fired so far, and of the first vertices of
/// the next one.
spec fn partial_flips(
    subgraph: Seq<u64>,
    hyperedges: Seq<Seq<u64>>,
    committed: Option<Seq<bool>>,
    in_commit_region: bool,
    k: int,
    j: int,
    v: u64,
) -> bool {
    vertex_flips(subgraph.take(k), hyperedges, committed, in_commit_region, v) != ((edge_committed(
        committed,
        subgraph[k],
    ) || in_commit_region) && occurs_oddly(hyperedges[subgraph[k] as int].take(j), v))
}

/// XOR-reduces the fired hyperedges to the detector flips that a decode explains,
/// in increasing order of the global detector ids.
///
/// A vertex of a fired hyperedge counts if the hyperedge is committed, or if the
/// vertex lies in the commit region: a committed hyperedge is applied as a whole,
/// and a detector of the commit region is settled now, even where a hyperedge that
/// is decoded again later helped to explain it. Without `committed` and
/// `committing_cids` everything is committed.
pub fn prediction_flips(
    subgraph: &[u64],
    hyperedge_vertices: &[Vec<u64>],
    committed: Option<&[bool]>,
    committing_cids: Option<&IdSet>,
    start_indices: &[usize],
    global_cid_of: &[u64],
) -> (flips: Vec<(u64, u64)>)
    requires
        flips_layout(
            subgraph@,
            hyperedge_vertices@,
            (match committed {
                Some(flags) => Some(flags@),
                None => None,
            }),
            start_indices@,
            global_cid_of@,
        ),
    ensures
        are_flips(
            flips@,
            subgraph@,
            vertex_lists(hyperedge_vertices@),
            (match committed {
                Some(flags) => Some(flags@),
                None => None,
            }),
            (match committing_cids {
                Some(cids) => Some(cids@),
                None => None,
            }),
            start_indices@,
            global_cid_of@,
        ),
{
    let ghost flags: Option<Seq<bool>> = match committed {
        Some(flags) => Some(flags@),
        None => None,
    };
    let ghost cids: Option<Set<u64>> = match committing_cids {
        Some(cids) => Some(cids@),
        None => None,
    };
    let ghost lists = vertex_lists(hyperedge_vertices@);
    let ghost region = |v: u64| vertex_committed(cids, start_indices@, global_cid_of@, v);
    let mut parity = IdSet::new();
    let mut k: usize = 0;
    while k < subgraph.len()
        invariant
            k <= subgraph@.len(),
            flips_layout(subgraph@, hyperedge_vertices@, flags, start_indices@, global_cid_of@),
            flags == (match committed {
                Some(flags) => Some(flags@),
                None => None,
            }),
            cids == (match committing_cids {
                Some(cids) => Some(cids@),
                None => None,
            }),
            lists == vertex_lists(hyperedge_vertices@),
            region == (|v: u64| vertex_committed(cids, start_indices@, global_cid_of@, v)),
            forall|v: u64| #[trigger]
                parity@.contains(v) <==> vertex_flips(subgraph@.take(k as int), lists, flags, region(v), v),
            forall|v: u64| #[trigger] parity@.contains(v) ==> vertex_owned(start_indices@, global_cid_of@, v),
        decreases subgraph@.len() - k,
    {
        let edge: usize = subgraph[k] as usize;
        let edge_counts = match committed {
            Some(flags) => flags[edge],
            None => true,
        };
        let vertices = &hyperedge_vertices[edge];
        let mut j: usize = 0;
        proof {
            assert(lists[edge as int] == vertices@);
            assert(vertices@.take(0) =~= Seq::<u64>::empty());
            assert forall|v: u64| #[trigger] parity@.contains(v) <==> partial_flips(subgraph@, lists, flags, region(v), k as int, 0, v) by {
            }
        }
        while j < vertices.len()
            invariant
                k < subgraph@.len(),
                edge == subgraph@[k as int],
                edge < hyperedge_vertices@.len(),
                vertices@ == hyperedge_vertices@[edge as int]@,
                vertices@ == lists[edge as int],
                j <= vertices@.len(),
                edge_counts == edge_committed(flags, subgraph@[k as int]),
                flips_layout(subgraph@, hyperedge_vertices@, flags, start_indices@, global_cid_of@),
                cids == (match committing_cids {
                    Some(cids) => Some(cids@),
                    None => None,
                }),
                region == (|v: u64| vertex_committed(cids, start_indices@, global_cid_of@, v)),
                forall|v: u64| #[trigger]
                    parity@.contains(v) <==> partial_flips(subgraph@, lists, flags, region(v), k as int, j as int, v),
                forall|v: u64| #[trigger] parity@.contains(v) ==> vertex_owned(start_indices@, global_cid_of@, v),
            decreases vertices@.len() - j,
        {
            let v: u64 = vertices[j];
            assert(vertex_owned(start_indices@, global_cid_of@, hyperedge_vertices@[subgraph@[k as int] as int]@[j as int]));
            let lc: usize = find_local_cid(start_indices, v);
            let counts = edge_counts || match committing_cids {
                Some(cids) => cids.contains(global_cid_of[lc]),
                None => true,
            };
            assert(counts == (edge_committed(flags, subgraph@[k as int]) || region(v)));
            let ghost before = parity@;
            if counts {
                if !parity.insert(v) {
                    parity.remove(v);
                }
            }
            proof {
                let upto = vertices@.take(j as int + 1);
                assert(upto.drop_last() =~= vertices@.take(j as int));
                assert(upto.last() == v);
                assert forall|u: u64| #[trigger] parity@.contains(u) <==> partial_flips(subgraph@, lists, flags, region(u), k as int, j as int + 1, u) by {
                    assert(before.contains(u) <==> partial_flips(subgraph@, lists, flags, region(u), k as int, j as int, u));
                }
            }
            j += 1;
        }
        proof {
            let upto = subgraph@.take(k as int + 1);
            assert(upto.drop_last() =~= subgraph@.take(k as int));
            assert(upto.last() == subgraph@[k as int]);
            assert(vertices@.take(vertices@.len() as int) =~= vertices@);
            assert forall|v: u64| #[trigger] parity@.contains(v) <==> vertex_flips(upto, lists, flags, region(v), v) by {
                assert(parity@.contains(v) <==> partial_flips(subgraph@, lists, flags, region(v), k as int, j as int, v));
            }
        }
        k += 1;
    }
    proof {
        assert(subgraph@.take(subgraph@.len() as int) =~= subgraph@);
    }
    let odd = parity.sorted_ids();
    let ghost image = odd@.map_values(|v: u64| detector_of_vertex(start_indices@, global_cid_of@, v));
    let mut flips: Vec<(u64, u64)> = Vec::new();
    let mut i: usize = 0;
    assert(image.take(0) =~= Seq::<(u64, u64)>::empty());
    while i < odd.len()
        invariant
            i <= odd@.len(),
            forall|i: int, j: int| 0 <= i <= j < start_indices@.len() ==> start_indices@[i] <= start_indices@[j],
            odd@.to_set() == parity@,
            forall|v: u64| #[trigger] parity@.contains(v) ==> vertex_owned(start_indices@, global_cid_of@, v),
            image == odd@.map_values(|v: u64| detector_of_vertex(start_indices@, global_cid_of@, v)),
            pairs_increasing(flips@),
            flips@.to_multiset() == image.take(i as int).to_multiset(),
        decreases odd@.len() - i,
    {
        let v: u64 = odd[i];
        assert(odd@.to_set().contains(v));
        let lc: usize = find_local_cid(start_indices, v);
        insert_pair_sorted(&mut flips, (global_cid_of[lc], v - start_indices[lc] as u64));
        proof {
            assert(image.take(i as int + 1) =~= image.take(i as int).push(image[i as int]));
            vstd::seq_lib::to_multiset_build(image.take(i as int), image[i as int]);
        }
        i += 1;
    }
    proof {
        assert(image.take(image.len() as int) =~= image);
        assert forall|v: u64| #[trigger] odd@.contains(v) <==> vertex_flips(
            subgraph@,
            lists,
            flags,
            vertex_committed(cids, start_indices@, global_cid_of@, v),
            v,
        ) by {
            assert(odd@.to_set().contains(v) <==> parity@.contains(v));
            assert(region(v) == vertex_committed(cids, start_indices@, global_cid_of@, v));
        }
        assert(are_flipped_vertices(odd@, subgraph@, lists, flags, cids, start_indices@, global_cid_of@));
    }
    flips
}

/// A decode determines its flips.
pub proof fn law_flips_determined(
    a: Seq<(u64, u64)>,
    b: Seq<(u64, u64)>,
    subgraph: Seq<u64>,
    hyperedges: Seq<Seq<u64>>,
    committed: Option<Seq<bool>>,
    committing_cids: Option<Set<u64>>,
    start_indices: Seq<usize>,
    global_cid_of: Seq<u64>,
)
    requires
        are_flips(a, subgraph, hyperedges, committed, committing_cids, start_indices, global_cid_of),
        are_flips(b, subgraph, hyperedges, committed, committing_cids, start_indices, global_cid_of),
    ensures
        a == b,
{
    let f = |v: u64| detector_of_vertex(start_indices, global_cid_of, v);
    let x = choose|odd: Seq<u64>| #[trigger]
        are_flipped_vertices(odd, subgraph, hyperedges, committed, committing_cids, start_indices, global_cid_of)
            && permutation_of(a, odd.map_values(f));
    let y = choose|odd: Seq<u64>| #[trigger]
        are_flipped_vertices(odd, subgraph, hyperedges, committed, committing_cids, start_indices, global_cid_of)
            && permutation_of(b, odd.map_values(f));
    assert forall|v: u64| x.to_set().contains(v) <==> y.to_set().contains(v) by {
        assert(x.contains(v) <==> y.contains(v));
    }
    assert(x.to_set() =~= y.to_set());
    lemma_strictly_increasing_unique(x, y);
    lemma_pairs_increasing_unique(a, b);
}

/// Joined lists flip a vertex if exactly one of them does.
proof fn lemma_joined_parity(
    a: Seq<u64>,
    b: Seq<u64>,
    hyperedges: Seq<Seq<u64>>,
    committed: Option<Seq<bool>>,
    in_commit_region: bool,
    v: u64,
)
    ensures
        vertex_flips(a + b, hyperedges, committed, in_commit_region, v) == (vertex_flips(
            a,
            hyperedges,
            committed,
            in_commit_region,
            v,
        ) != vertex_flips(b, hyperedges, committed, in_commit_region, v)),
    decreases b.len(),
{
    if b.len() == 0 {
        assert(a + b =~= a);
    } else {
        lemma_joined_parity(a, b.drop_last(), hyperedges, committed, in_commit_region, v);
        assert((a + b).drop_last() =~= a + b.drop_last());
        assert((a + b).last() == b.last());
    }
}

/// The fired hyperedges flip vertex `v`, which is detector `p`.
spec fn flips_detector(
    subgraph: Seq<u64>,
    hyperedges: Seq<Seq<u64>>,
    committed: Option<Seq<bool>>,
    committing_cids: Option<Set<u64>>,
    start_indices: Seq<usize>,
    global_cid_of: Seq<u64>,
    v: u64,
    p: (u64, u64),
) -> bool {
    &&& vertex_flips(
        subgraph,
        hyperedges,
        committed,
        vertex_committed(committing_cids, start_indices, global_cid_of, v),
        v,
    )
    &&& detector_of_vertex(start_indices, global_cid_of, v) == p
}

/// A detector is listed exactly if one of its vertices is flipped.
proof fn lemma_flips_members(
    flips: Seq<(u64, u64)>,
    subgraph: Seq<u64>,
    hyperedges: Seq<Seq<u64>>,
    committed: Option<Seq<bool>>,
    committing_cids: Option<Set<u64>>,
    start_indices: Seq<usize>,
    global_cid_of: Seq<u64>,
    p: (u64, u64),
)
    requires
        are_flips(flips, subgraph, hyperedges, committed, committing_cids, start_indices, global_cid_of),
    ensures
        flips.contains(p) <==> exists|v: u64| #[trigger]
            flips_detector(subgraph, hyperedges, committed, committing_cids, start_indices, global_cid_of, v, p),
{
    broadcast use vstd::seq_lib::group_to_multiset_ensures;

    let f = |v: u64| detector_of_vertex(start_indices, global_cid_of, v);
    let odd = choose|odd: Seq<u64>| #[trigger]
        are_flipped_vertices(odd, subgraph, hyperedges, committed, committing_cids, start_indices, global_cid_of)
            && permutation_of(flips, odd.map_values(f));
    let mapped = odd.map_values(f);
    assert(flips.contains(p) <==> flips.to_multiset().contains(p));
    assert(mapped.contains(p) <==> mapped.to_multiset().contains(p));
    if flips.contains(p) {
        let i = mapped.index_of(p);
        assert(odd.contains(odd[i]));
        assert(flips_detector(subgraph, hyperedges, committed, committing_cids, start_indices, global_cid_of, odd[i], p));
    }
    if exists|v: u64| #[trigger]
        flips_detector(subgraph, hyperedges, committed, committing_cids, start_indices, global_cid_of, v, p) {
        let v = choose|v: u64| #[trigger]
            flips_detector(subgraph, hyperedges, committed, committing_cids, start_indices, global_cid_of, v, p);
        assert(odd.contains(v));
        let i = odd.index_of(v);
        assert(mapped[i] == p);
    }
}

/// A flipped vertex belongs to a check model.
proof fn lemma_flipped_vertex_owned(
    subgraph: Seq<u64>,
    hyperedges: Seq<Vec<u64>>,
    committed: Option<Seq<bool>>,
    in_commit_region: bool,
    start_indices: Seq<usize>,
    global_cid_of: Seq<u64>,
    v: u64,
)
    requires
        flips_layout(subgraph, hyperedges, committed, start_indices, global_cid_of),
        vertex_flips(subgraph, vertex_lists(hyperedges), committed, in_commit_region, v),
    ensures
        vertex_owned(start_indices, global_cid_of, v),
{
    let lists = vertex_lists(hyperedges);
    if forall|e: int| 0 <= e < subgraph.len() ==> !lists[#[trigger] subgraph[e] as int].contains(v) {
        lemma_untouched(subgraph, lists, committed, in_commit_region, v);
    } else {
        let e = choose|e: int| 0 <= e < subgraph.len() && lists[#[trigger] subgraph[e] as int].contains(v);
        let j = lists[subgraph[e] as int].index_of(v);
        assert(hyperedges[subgraph[e] as int]@[j] == v);
    }
}

/// Different vertices are different detectors.
proof fn lemma_detectors_differ(start_indices: Seq<usize>, global_cid_of: Seq<u64>, v: u64, w: u64)
    requires
        vertex_owned(start_indices, global_cid_of, v),
        vertex_owned(start_indices, global_cid_of, w),
        forall|i: int, j: int| 0 <= i <= j < start_indices.len() ==> start_indices[i] <= start_indices[j],
        global_cid_of.no_duplicates(),
        detector_of_vertex(start_indices, global_cid_of, v) == detector_of_vertex(start_indices, global_cid_of, w),
    ensures
        v == w,
{
    lemma_local_cid_of(start_indices, v);
    lemma_local_cid_of(start_indices, w);
    let (i, j) = (local_cid_of(start_indices, v), local_cid_of(start_indices, w));
    assert(i >= 0) by {
        if i < 0 {
            assert(start_indices[0] > v);
        }
    }
    assert(j >= 0) by {
        if j < 0 {
            assert(start_indices[0] > w);
        }
    }
    assert(global_cid_of[i] == global_cid_of[j]);
    assert(i == j);
}

/// The flips of two lists of fired hyperedges joined are the symmetric difference of the
/// flips of each: flips are accumulated by XOR.
pub proof fn law_joined_decodes_flip_the_difference(
    joined: Seq<(u64, u64)>,
    a: Seq<(u64, u64)>,
    b: Seq<(u64, u64)>,
    fired_a: Seq<u64>,
    fired_b: Seq<u64>,
    hyperedges: Seq<Vec<u64>>,
    committed: Option<Seq<bool>>,
    committing_cids: Option<Set<u64>>,
    start_indices: Seq<usize>,
    global_cid_of: Seq<u64>,
    p: (u64, u64),
)
    requires
        flips_layout(fired_a, hyperedges, committed, start_indices, global_cid_of),
        flips_layout(fired_b, hyperedges, committed, start_indices, global_cid_of),
        global_cid_of.no_duplicates(),
        are_flips(
            joined,
            fired_a + fired_b,
            vertex_lists(hyperedges),
            committed,
            committing_cids,
            start_indices,
            global_cid_of,
        ),
        are_flips(a, fired_a, vertex_lists(hyperedges), committed, committing_cids, start_indices, global_cid_of),
        are_flips(b, fired_b, vertex_lists(hyperedges), committed, committing_cids, start_indices, global_cid_of),
    ensures
        joined.contains(p) == (a.contains(p) != b.contains(p)),
{
    let lists = vertex_lists(hyperedges);
    let both = fired_a + fired_b;
    let (ss, gs, cs) = (start_indices, global_cid_of, committing_cids);
    lemma_flips_members(joined, both, lists, committed, cs, ss, gs, p);
    lemma_flips_members(a, fired_a, lists, committed, cs, ss, gs, p);
    lemma_flips_members(b, fired_b, lists, committed, cs, ss, gs, p);
    if joined.contains(p) {
        let v = choose|v: u64| #[trigger] flips_detector(both, lists, committed, cs, ss, gs, v, p);
        let region = vertex_committed(cs, ss, gs, v);
        lemma_joined_parity(fired_a, fired_b, lists, committed, region, v);
        if vertex_flips(fired_a, lists, committed, region, v) {
            assert(flips_detector(fired_a, lists, committed, cs, ss, gs, v, p));
            lemma_flipped_vertex_owned(fired_a, hyperedges, committed, region, ss, gs, v);
            if b.contains(p) {
                let w = choose|w: u64| #[trigger] flips_detector(fired_b, lists, committed, cs, ss, gs, w, p);
                lemma_flipped_vertex_owned(fired_b, hyperedges, committed, vertex_committed(cs, ss, gs, w), ss, gs, w);
                lemma_detectors_differ(ss, gs, v, w);
            }
        } else {
            assert(flips_detector(fired_b, lists, committed, cs, ss, gs, v, p));
            lemma_flipped_vertex_owned(fired_b, hyperedges, committed, region, ss, gs, v);
            if a.contains(p) {
                let w = choose|w: u64| #[trigger] flips_detector(fired_a, lists, committed, cs, ss, gs, w, p);
                lemma_flipped_vertex_owned(fired_a, hyperedges, committed, vertex_committed(cs, ss, gs, w), ss, gs, w);
                lemma_detectors_differ(ss, gs, v, w);
            }
        }
    } else {
        if a.contains(p) && !b.contains(p) {
            let v = choose|v: u64| #[trigger] flips_detector(fired_a, lists, committed, cs, ss, gs, v, p);
            lemma_joined_parity(fired_a, fired_b, lists, committed, vertex_committed(cs, ss, gs, v), v);
            assert(!flips_detector(fired_b, lists, committed, cs, ss, gs, v, p));
            assert(flips_detector(both, lists, committed, cs, ss, gs, v, p));
        }
        if b.contains(p) && !a.contains(p) {
            let v = choose|v: u64| #[trigger] flips_detector(fired_b, lists, committed, cs, ss, gs, v, p);
            lemma_joined_parity(fired_a, fired_b, lists, committed, vertex_committed(cs, ss, gs, v), v);
            assert(!flips_detector(fired_a, lists, committed, cs, ss, gs, v, p));
            assert(flips_detector(both, lists, committed, cs, ss, gs, v, p));
        }
    }
}

/// Lists of the same fired hyperedges flip the same vertices.
proof fn lemma_order_free(
    a: Seq<u64>,
    b: Seq<u64>,
    hyperedges: Seq<Seq<u64>>,
    committed: Option<Seq<bool>>,
    in_commit_region: bool,
    v: u64,
)
    requires
        permutation_of(a, b),
    ensures
        vertex_flips(a, hyperedges, committed, in_commit_region, v) == vertex_flips(
            b,
            hyperedges,
            committed,
            in_commit_region,
            v,
        ),
    decreases a.len(),
{
    broadcast use vstd::seq_lib::group_to_multiset_ensures;

    vstd::seq_lib::to_multiset_len(a);
    vstd::seq_lib::to_multiset_len(b);
    if a.len() > 0 {
        let x = a.last();
        assert(a.contains(x));
        assert(b.to_multiset().contains(x));
        let i = b.index_of(x);
        let (head, tail) = (b.take(i), b.skip(i + 1));
        let rest = b.remove(i);
        assert(rest =~= head + tail);
        assert(b =~= head + (seq![x] + tail));
        assert(a.remove(a.len() - 1) =~= a.drop_last());
        assert(a.drop_last().to_multiset() =~= rest.to_multiset());
        lemma_order_free(a.drop_last(), rest, hyperedges, committed, in_commit_region, v);
        lemma_joined_parity(head, tail, hyperedges, committed, in_commit_region, v);
        lemma_joined_parity(head, seq![x] + tail, hyperedges, committed, in_commit_region, v);
        lemma_joined_parity(seq![x], tail, hyperedges, committed, in_commit_region, v);
        assert(seq![x].drop_last() =~= Seq::<u64>::empty());
        assert(seq![x].last() == x);
        assert(!vertex_flips(seq![x].drop_last(), hyperedges, committed, in_commit_region, v));
    }
}

/// Fired hyperedges that flip the same vertices have the same flips.
proof fn lemma_same_flips(
    flips: Seq<(u64, u64)>,
    a: Seq<u64>,
    b: Seq<u64>,
    hyperedges: Seq<Seq<u64>>,
    committed: Option<Seq<bool>>,
    committing_cids: Option<Set<u64>>,
    start_indices: Seq<usize>,
    global_cid_of: Seq<u64>,
)
    requires
        are_flips(flips, a, hyperedges, committed, committing_cids, start_indices, global_cid_of),
        forall|in_commit_region: bool, v: u64|
            vertex_flips(a, hyperedges, committed, in_commit_region, v) == #[trigger] vertex_flips(
                b,
                hyperedges,
                committed,
                in_commit_region,
                v,
            ),
    ensures
        are_flips(flips, b, hyperedges, committed, committing_cids, start_indices, global_cid_of),
{
    let f = |v: u64| detector_of_vertex(start_indices, global_cid_of, v);
    let odd = choose|odd: Seq<u64>| #[trigger]
        are_flipped_vertices(odd, a, hyperedges, committed, committing_cids, start_indices, global_cid_of)
            && permutation_of(flips, odd.map_values(f));
    assert(are_flipped_vertices(odd, b, hyperedges, committed, committing_cids, start_indices, global_cid_of));
}

/// In which order hyperedges are listed as fired makes no difference to the flips.
pub proof fn law_flips_ignore_order(
    a: Seq<(u64, u64)>,
    b: Seq<(u64, u64)>,
    fired_a: Seq<u64>,
    fired_b: Seq<u64>,
    hyperedges: Seq<Seq<u64>>,
    committed: Option<Seq<bool>>,
    committing_cids: Option<Set<u64>>,
    start_indices: Seq<usize>,
    global_cid_of: Seq<u64>,
)
    requires
        permutation_of(fired_a, fired_b),
        are_flips(a, fired_a, hyperedges, committed, committing_cids, start_indices, global_cid_of),
        are_flips(b, fired_b, hyperedges, committed, committing_cids, start_indices, global_cid_of),
    ensures
        a == b,
{
    assert forall|r: bool, v: u64| vertex_flips(fired_a, hyperedges, committed, r, v) == #[trigger] vertex_flips(
        fired_b,
        hyperedges,
        committed,
        r,
        v,
    ) by {
        lemma_order_free(fired_a, fired_b, hyperedges, committed, r, v);
    }
    lemma_same_flips(a, fired_a, fired_b, hyperedges, committed, committing_cids, start_indices, global_cid_of);
    law_flips_determined(a, b, fired_b, hyperedges, committed, committing_cids, start_indices, global_cid_of);
}

/// A hyperedge that is listed as fired twice cancels.
pub proof fn law_repeated_hyperedge_cancels(
    a: Seq<(u64, u64)>,
    b: Seq<(u64, u64)>,
    fired: Seq<u64>,
    edge: u64,
    hyperedges: Seq<Seq<u64>>,
    committed: Option<Seq<bool>>,
    committing_cids: Option<Set<u64>>,
    start_indices: Seq<usize>,
    global_cid_of: Seq<u64>,
)
    requires
        are_flips(a, fired, hyperedges, committed, committing_cids, start_indices, global_cid_of),
        are_flips(b, fired.push(edge).push(edge), hyperedges, committed, committing_cids, start_indices, global_cid_of),
    ensures
        a == b,
{
    let once = fired.push(edge);
    let twice = once.push(edge);
    assert(once.drop_last() =~= fired);
    assert(twice.drop_last() =~= once);
    assert forall|r: bool, v: u64| vertex_flips(fired, hyperedges, committed, r, v) == #[trigger] vertex_flips(
        twice,
        hyperedges,
        committed,
        r,
        v,
    ) by {
        assert(vertex_flips(once, hyperedges, committed, r, v) == (vertex_flips(fired, hyperedges, committed, r, v) != ((
        edge_committed(committed, edge) || r) && occurs_oddly(hyperedges[edge as int], v))));
    }
    lemma_same_flips(a, fired, twice, hyperedges, committed, committing_cids, start_indices, global_cid_of);
    law_flips_determined(a, b, twice, hyperedges, committed, committing_cids, start_indices, global_cid_of);
}

/// What one window decode did, over one numbering of all detectors.
#[verifier::ext_equal]
pub struct WindowDecode {
    /// the fired hyperedges
    pub fired: Seq<u64>,
    /// the vertices of each hyperedge
    pub hyperedges: Seq<Seq<u64>>,
    /// whether each hyperedge is committed
    pub committed: Seq<bool>,
    /// the detectors that the decode consumed
    pub window: Set<u64>,
    /// the detectors that it settled
    pub region: Set<u64>,
}

impl WindowDecode {
    /// The syndrome that all fired hyperedges together produce.
    pub open spec fn explained(self, v: u64) -> bool {
        vertex_flips(self.fired, self.hyperedges, None, true, v)
    }

    /// The syndrome of the fired hyperedges that are applied for good.
    pub open spec fn applied(self, v: u64) -> bool {
        vertex_flips(self.fired, self.hyperedges, Some(self.committed), false, v)
    }

    /// The flips that the decode reports.
    pub open spec fn reported(self, v: u64) -> bool {
        vertex_flips(self.fired, self.hyperedges, Some(self.committed), self.region.contains(v), v)
    }
}

/// The parity of what the first `k` decodes applied to a detector.
pub open spec fn applied_before(decodes: Seq<WindowDecode>, k: int, v: u64) -> bool
    decreases k,
{
    if k <= 0 {
        false
    } else {
        applied_before(decodes, k - 1, v) != decodes[k - 1].applied(v)
    }
}

/// The parity of what the first `k` decodes reported of a detector.
pub open spec fn reported_before(decodes: Seq<WindowDecode>, k: int, v: u64) -> bool
    decreases k,
{
    if k <= 0 {
        false
    } else {
        reported_before(decodes, k - 1, v) != decodes[k - 1].reported(v)
    }
}

/// A run of window decodes over a raw syndrome: each decode reproduces the raw
/// syndrome of its window as the earlier decodes left it, fires only hyperedges
/// inside its window, and a detector that one decode settled is in no later window.
pub open spec fn is_window_run(decodes: Seq<WindowDecode>, raw: spec_fn(u64) -> bool) -> bool {
    &&& forall|k: int, v: u64|
        0 <= k < decodes.len() && #[trigger] decodes[k].window.contains(v) ==> decodes[k].explained(v) == (raw(v)
            != applied_before(decodes, k, v))
    &&& forall|k: int, v: u64|
        0 <= k < decodes.len() && #[trigger] decodes[k].region.contains(v) ==> decodes[k].window.contains(v)
    &&& forall|k: int, e: int, v: u64|
        0 <= k < decodes.len() && 0 <= e < decodes[k].fired.len() && #[trigger]
        decodes[k].hyperedges[decodes[k].fired[e] as int].contains(v) ==> decodes[k].window.contains(v)
    &&& forall|j: int, k: int, v: u64|
        0 <= j < k < decodes.len() && #[trigger] decodes[j].region.contains(v) ==> !(#[trigger] decodes[k].window.contains(
            v,
        ))
}

proof fn lemma_all_counted(fired: Seq<u64>, hyperedges: Seq<Seq<u64>>, committed: Seq<bool>, v: u64)
    ensures
        vertex_flips(fired, hyperedges, Some(committed), true, v) == vertex_flips(fired, hyperedges, None, true, v),
    decreases fired.len(),
{
    if fired.len() > 0 {
        lemma_all_counted(fired.drop_last(), hyperedges, committed, v);
    }
}

proof fn lemma_absent(vertices: Seq<u64>, v: u64)
    requires
        !vertices.contains(v),
    ensures
        !occurs_oddly(vertices, v),
    decreases vertices.len(),
{
    if vertices.len() > 0 {
        assert(vertices.last() == vertices[vertices.len() - 1]);
        assert forall|i: int| 0 <= i < vertices.len() - 1 implies vertices.drop_last()[i] != v by {
            assert(vertices[i] != v);
        }
        lemma_absent(vertices.drop_last(), v);
    }
}

proof fn lemma_untouched(
    fired: Seq<u64>,
    hyperedges: Seq<Seq<u64>>,
    committed: Option<Seq<bool>>,
    in_commit_region: bool,
    v: u64,
)
    requires
        forall|e: int| 0 <= e < fired.len() ==> !hyperedges[#[trigger] fired[e] as int].contains(v),
    ensures
        !vertex_flips(fired, hyperedges, committed, in_commit_region, v),
    decreases fired.len(),
{
    if fired.len() > 0 {
        let rest = fired.drop_last();
        assert forall|e: int| 0 <= e < rest.len() implies !hyperedges[#[trigger] rest[e] as int].contains(v) by {
            assert(rest[e] == fired[e]);
        }
        lemma_untouched(rest, hyperedges, committed, in_commit_region, v);
        assert(fired.last() == fired[fired.len() - 1]);
        lemma_absent(hyperedges[fired.last() as int], v);
    }
}

/// The flips that a run of window decodes reports add up to the raw syndrome on
/// every detector that the run settles: a display that toggles a detector per
/// reported flip is all-zero once every window has committed.
pub proof fn law_flips_telescope(decodes: Seq<WindowDecode>, raw: spec_fn(u64) -> bool, m: int, v: u64)
    requires
        is_window_run(decodes, raw),
        0 <= m < decodes.len(),
        decodes[m].region.contains(v),
    ensures
        reported_before(decodes, decodes.len() as int, v) == raw(v),
{
    lemma_telescope(decodes, raw, m, v, decodes.len() as int);
}

proof fn lemma_telescope(decodes: Seq<WindowDecode>, raw: spec_fn(u64) -> bool, m: int, v: u64, k: int)
    requires
        is_window_run(decodes, raw),
        0 <= m < decodes.len(),
        decodes[m].region.contains(v),
        0 <= k <= decodes.len(),
    ensures
        k <= m ==> reported_before(decodes, k, v) == applied_before(decodes, k, v),
        k > m ==> reported_before(decodes, k, v) == raw(v),
    decreases k,
{
    if k > 0 {
        lemma_telescope(decodes, raw, m, v, k - 1);
        let w = decodes[k - 1];
        assert(decodes[m].window.contains(v));
        if k - 1 < m {
            assert(!w.region.contains(v));
        } else if k - 1 == m {
            lemma_all_counted(w.fired, w.hyperedges, w.committed, v);
            assert(decodes[k - 1].window.contains(v));
        } else {
            assert(!w.window.contains(v));
            assert forall|e: int| 0 <= e < w.fired.len() implies !w.hyperedges[#[trigger] w.fired[e] as int].contains(v) by {
                if w.hyperedges[w.fired[e] as int].contains(v) {
                    assert(decodes[k - 1].hyperedges[decodes[k - 1].fired[e] as int].contains(v));
                }
            }
            lemma_untouched(w.fired, w.hyperedges, Some(w.committed), w.region.contains(v), v);
        }
    }
}

// ---------------------------------------------------------------------------
// Effective errors
// ---------------------------------------------------------------------------

/// A list of mechanisms with one probability replaced.
pub open spec fn with_probability(errors: Seq<ErrorSpec>, index: int, probability: Probability) -> Seq<ErrorSpec> {
    errors.update(index, ErrorSpec { probability, ..errors[index] })
}

/// The dense probabilities, the first `n` of them, written over the mechanisms.
pub open spec fn with_dense(errors: Seq<ErrorSpec>, probabilities: Seq<Probability>, n: int) -> Seq<ErrorSpec> {
    Seq::new(
        errors.len(),
        |i: int|
            if i < n {
                ErrorSpec { probability: probabilities[i], ..errors[i] }
            } else {
                errors[i]
            },
    )
}

/// The sparse probabilities, the first `n` of them, written over the mechanisms in
/// order.
pub open spec fn with_sparse(
    errors: Seq<ErrorSpec>,
    indices: Seq<u64>,
    probabilities: Seq<Probability>,
    n: int,
) -> Seq<ErrorSpec>
    decreases n,
{
    if n <= 0 {
        errors
    } else {
        with_probability(
            with_sparse(errors, indices, probabilities, n - 1),
            indices[n - 1] as int,
            probabilities[n - 1],
        )
    }
}

/// The smaller of two lengths.
pub open spec fn zip_len(a: int, b: int) -> int {
    if a <= b {
        a
    } else {
        b
    }
}

/// The mechanisms of a type with the probabilities of an instance.
pub open spec fn effective_errors_spec(errors: Seq<ErrorSpec>, instance: ErrorModel) -> Seq<ErrorSpec> {
    match instance.modifier {
        Some(modifier) => match modifier.probability_modifier {
            Some(p) => with_sparse(
                with_dense(errors, p.probabilities@, p.probabilities@.len() as int),
                p.sparse_indices@,
                p.sparse_probabilities@,
                zip_len(p.sparse_indices@.len() as int, p.sparse_probabilities@.len() as int),
            ),
            None => errors,
        },
        None => errors,
    }
}

/// Every probability of the instance belongs to a mechanism of the type.
pub open spec fn modifier_fits(count: nat, instance: ErrorModel) -> bool {
    instance.modifier matches Some(modifier) ==> (modifier.probability_modifier matches Some(p) ==> {
        &&& p.probabilities@.len() <= count
        &&& forall|i: int|
            0 <= i < p.sparse_indices@.len() && i < p.sparse_probabilities@.len() ==> (#[trigger] p.sparse_indices@[i]) < count
    })
}

/// The mechanisms of a type with the probabilities of an instance written over
/// them: first the dense prefix, then the sparse entries on top.
pub fn effective_errors(error_model_type: &ErrorModelType, instance: &ErrorModel) -> (errors: Vec<Error>)
    requires
        modifier_fits(error_model_type.errors@.len(), *instance),
    ensures
        errors_view(errors@) == effective_errors_spec(errors_view(error_model_type.errors@), *instance),
        errors@.len() == error_model_type.errors@.len(),
{
    let ghost base = errors_view(error_model_type.errors@);
    let mut errors = copy_errors(&error_model_type.errors);
    proof {
        assert(errors_view(errors@).len() == base.len());
    }
    if let Some(modifier) = &instance.modifier {
        if let Some(p) = &modifier.probability_modifier {
            let mut i: usize = 0;
            assert(with_dense(base, p.probabilities@, 0) =~= base);
            while i < p.probabilities.len()
                invariant
                    i <= p.probabilities@.len() <= errors@.len(),
                    errors@.len() == base.len(),
                    errors_view(errors@) == with_dense(base, p.probabilities@, i as int),
                decreases p.probabilities@.len() - i,
            {
                let ghost before = errors@;
                errors[i].probability = p.probabilities[i];
                proof {
                    assert(errors_view(errors@) =~= with_probability(errors_view(before), i as int, p.probabilities@[i as int]));
                    assert(errors_view(errors@) =~= with_dense(base, p.probabilities@, i as int + 1));
                }
                i += 1;
            }
            let ghost dense = errors_view(errors@);
            let n: usize = if p.sparse_indices.len() <= p.sparse_probabilities.len() {
                p.sparse_indices.len()
            } else {
                p.sparse_probabilities.len()
            };
            let mut k: usize = 0;
            while k < n
                invariant
                    k <= n <= p.sparse_indices@.len(),
                    n <= p.sparse_probabilities@.len(),
                    errors@.len() == base.len(),
                    forall|i: int|
                        0 <= i < p.sparse_indices@.len() && i < p.sparse_probabilities@.len() ==> (#[trigger] p.sparse_indices@[i])
                            < base.len(),
                    errors_view(errors@) == with_sparse(dense, p.sparse_indices@, p.sparse_probabilities@, k as int),
                decreases n - k,
            {
                let ghost before = errors@;
                assert(p.sparse_indices@[k as int] < errors.len());
                let at: usize = p.sparse_indices[k] as usize;
                errors[at].probability = p.sparse_probabilities[k];
                proof {
                    assert(errors_view(errors@) =~= with_probability(errors_view(before), at as int, p.sparse_probabilities@[k as int]));
                }
                k += 1;
            }
        }
    }
    errors
}

proof fn lemma_sparse_written(errors: Seq<ErrorSpec>, indices: Seq<u64>, probabilities: Seq<Probability>, n: int, j: int)
    requires
        0 <= n <= indices.len(),
        n <= probabilities.len(),
        0 <= j < errors.len(),
        forall|i: int| 0 <= i < n ==> (#[trigger] indices[i]) < errors.len(),
    ensures
        with_sparse(errors, indices, probabilities, n).len() == errors.len(),
        with_sparse(errors, indices, probabilities, n)[j].checks == errors[j].checks,
        with_sparse(errors, indices, probabilities, n)[j].residual == errors[j].residual,
        with_sparse(errors, indices, probabilities, n)[j].readout_flips == errors[j].readout_flips,
        (forall|i: int| 0 <= i < n ==> (#[trigger] indices[i]) != j) ==> with_sparse(errors, indices, probabilities, n)[j]
            == errors[j],
        forall|i: int|
            0 <= i < n && (#[trigger] indices[i]) == j && (forall|k: int| i < k < n ==> (#[trigger] indices[k]) != j)
                ==> with_sparse(errors, indices, probabilities, n)[j].probability == probabilities[i],
    decreases n,
{
    if n > 0 {
        lemma_sparse_written(errors, indices, probabilities, n - 1, j);
        assert(indices[n - 1] < errors.len());
    }
}

/// An instance changes nothing of a mechanism but its probability. That is the last of the
/// single entries for the mechanism; without one it is the entry of the dense list; beyond
/// that list it is the probability of the type.
pub proof fn law_instance_overrides_probabilities(errors: Seq<ErrorSpec>, instance: ErrorModel, p: ProbabilityModifier, j: int)
    requires
        instance.modifier matches Some(modifier) && modifier.probability_modifier == Some(p),
        modifier_fits(errors.len(), instance),
        0 <= j < errors.len(),
    ensures
        ({
            let effective = effective_errors_spec(errors, instance);
            let n = if p.sparse_indices@.len() <= p.sparse_probabilities@.len() {
                p.sparse_indices@.len() as int
            } else {
                p.sparse_probabilities@.len() as int
            };
            &&& effective.len() == errors.len()
            &&& effective[j].checks == errors[j].checks
            &&& effective[j].residual == errors[j].residual
            &&& effective[j].readout_flips == errors[j].readout_flips
            &&& forall|i: int|
                0 <= i < n && (#[trigger] p.sparse_indices@[i]) == j && (forall|k: int|
                    i < k < n ==> (#[trigger] p.sparse_indices@[k]) != j) ==> effective[j].probability
                    == p.sparse_probabilities@[i]
            &&& (forall|i: int| 0 <= i < n ==> (#[trigger] p.sparse_indices@[i]) != j) ==> effective[j].probability == (if j
                < p.probabilities@.len() {
                p.probabilities@[j]
            } else {
                errors[j].probability
            })
        }),
{
    let n = if p.sparse_indices@.len() <= p.sparse_probabilities@.len() {
        p.sparse_indices@.len() as int
    } else {
        p.sparse_probabilities@.len() as int
    };
    let dense = with_dense(errors, p.probabilities@, p.probabilities@.len() as int);
    assert(dense.len() == errors.len());
    lemma_sparse_written(dense, p.sparse_indices@, p.sparse_probabilities@, n, j);
}

/// An instance without probabilities of its own has the mechanisms of its type.
pub proof fn law_plain_instance_keeps_probabilities(errors: Seq<ErrorSpec>, instance: ErrorModel)
    requires
        instance.modifier matches Some(modifier) ==> modifier.probability_modifier is None,
    ensures
        effective_errors_spec(errors, instance) == errors,
{
}

/// A vertex is flipped exactly if an odd number of the fired hyperedges that count for it
/// have it an odd number of times. Committed hyperedges count for every vertex, the others
/// for the vertices of the commit region only.
pub proof fn law_flips_count_hyperedges(
    fired: Seq<u64>,
    hyperedges: Seq<Seq<u64>>,
    committed: Option<Seq<bool>>,
    in_commit_region: bool,
    v: u64,
)
    ensures
        vertex_flips(fired, hyperedges, committed, in_commit_region, v) == (fired.filter(
            |h: u64|
                (in_commit_region || committed is None || committed->0[h as int]) && hyperedges[h as int].filter(
                    |x: u64| x == v,
                ).len() % 2 == 1,
        ).len() % 2 == 1),
    decreases fired.len(),
{
    reveal(Seq::filter);
    if fired.len() > 0 {
        law_flips_count_hyperedges(fired.drop_last(), hyperedges, committed, in_commit_region, v);
        law_occurrences_are_counted(hyperedges[fired.last() as int], v);
    }
}

/// The reported flips are the detectors that the fired hyperedges flip: check `index` of a
/// check model is among them exactly if its vertex, `index` from the first vertex of the
/// check model, is flipped by an odd number of the hyperedges that count for it.
pub proof fn law_reported_flips_are_the_odd_detectors(
    flips: Seq<(u64, u64)>,
    subgraph: Seq<u64>,
    hyperedges: Seq<Vec<u64>>,
    committed: Option<Seq<bool>>,
    committing_cids: Option<Set<u64>>,
    start_indices: Seq<usize>,
    global_cid_of: Seq<u64>,
    lc: int,
    index: u64,
    v: u64,
)
    requires
        flips_layout(subgraph, hyperedges, committed, start_indices, global_cid_of),
        are_flips(flips, subgraph, vertex_lists(hyperedges), committed, committing_cids, start_indices, global_cid_of),
        global_cid_of.no_duplicates(),
        0 <= lc < start_indices.len(),
        lc < global_cid_of.len(),
        v == start_indices[lc] + index,
        lc + 1 < start_indices.len() ==> v < start_indices[lc + 1],
    ensures
        flips.contains((global_cid_of[lc], index)) == (subgraph.filter(
            |h: u64|
                ((committing_cids matches Some(cids) ==> cids.contains(global_cid_of[lc])) || committed is None
                    || committed->0[h as int]) && hyperedges[h as int]@.filter(|x: u64| x == v).len() % 2 == 1,
        ).len() % 2 == 1),
{
    let lists = vertex_lists(hyperedges);
    let p = (global_cid_of[lc], index);
    lemma_local_cid_of(start_indices, v);
    let own = local_cid_of(start_indices, v);
    if own < lc {
        assert(start_indices[lc] > v);
    }
    if own > lc {
        assert(start_indices[lc + 1] <= v);
    }
    let region = vertex_committed(committing_cids, start_indices, global_cid_of, v);
    assert(detector_of_vertex(start_indices, global_cid_of, v) == p);
    assert(start_indices[0] <= start_indices[lc]);
    lemma_flips_members(flips, subgraph, lists, committed, committing_cids, start_indices, global_cid_of, p);
    if vertex_flips(subgraph, lists, committed, region, v) {
        assert(flips_detector(subgraph, lists, committed, committing_cids, start_indices, global_cid_of, v, p));
    } else if flips.contains(p) {
        let w = choose|w: u64| #[trigger]
            flips_detector(subgraph, lists, committed, committing_cids, start_indices, global_cid_of, w, p);
        lemma_flipped_vertex_owned(
            subgraph,
            hyperedges,
            committed,
            vertex_committed(committing_cids, start_indices, global_cid_of, w),
            start_indices,
            global_cid_of,
            w,
        );
        lemma_detectors_differ(start_indices, global_cid_of, v, w);
    }
    law_flips_count_hyperedges(subgraph, lists, committed, region, v);
    let shown = |h: u64|
        (region || committed is None || committed->0[h as int]) && lists[h as int].filter(|x: u64| x == v).len() % 2 == 1;
    let stated = |h: u64|
        ((committing_cids matches Some(cids) ==> cids.contains(global_cid_of[lc])) || committed is None
            || committed->0[h as int]) && hyperedges[h as int]@.filter(|x: u64| x == v).len() % 2 == 1;
    lemma_selects_alike(subgraph, shown, stated);
}

proof fn lemma_selects_alike(list: Seq<u64>, p: spec_fn(u64) -> bool, q: spec_fn(u64) -> bool)
    requires
        forall|i: int| 0 <= i < list.len() ==> p(#[trigger] list[i]) == q(list[i]),
    ensures
        list.filter(p) == list.filter(q),
    decreases list.len(),
{
    reveal(Seq::filter);
    if list.len() > 0 {
        let rest = list.drop_last();
        assert forall|i: int| 0 <= i < rest.len() implies p(#[trigger] rest[i]) == q(rest[i]) by {
            assert(rest[i] == list[i]);
        }
        lemma_selects_alike(rest, p, q);
        assert(p(list[list.len() - 1]) == q(list[list.len() - 1]));
    }
}

} // verus!
