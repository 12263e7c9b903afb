//! What a decoder is asked, and what its answer means: syndromes of windows, the
//! tables that belong to a loaded decoder, and the reports of decodes.
use crate::bin::{checks_view, copy_vec, CheckModelType};
use crate::bit_vector::{from_bits, get_bit, BitVector};
use crate::collections::IdSet;
use crate::dem::{
    are_flips, flips_layout, law_occurrences_are_counted, occurs_oddly, prediction_flips, vertex_flips, vertex_lists,
    DemPrediction,
};
use crate::detectors::{are_detectors, check_values, detector_value, detectors_known};
use crate::hypergraph::{window_edges_view, ErrorIndex, WindowEdge, WindowEdgeSpec};
use crate::merge::{is_group, is_merge, lemma_best_is_member, merge_hyperedges, MergedEdges};
use crate::network::{CheckModel, Gadget};
use crate::probability::Probability;
use crate::registry::Registry;
use crate::relative::RelativeMapping;
use vstd::prelude::*;

verus! {

// ---------------------------------------------------------------------------
// Syndromes
// ---------------------------------------------------------------------------

/// The syndromes of check models, one after the other; none if one is not known.
pub open spec fn joined_syndromes(cids: Seq<u64>, check_models: Map<u64, CheckModel>) -> Option<Seq<bool>>
    decreases cids.len(),
{
    if cids.len() == 0 {
        Some(Seq::empty())
    } else {
        let cid = cids.last();
        match joined_syndromes(cids.drop_last(), check_models) {
            Some(before) => if check_models.contains_key(cid) {
                match check_models[cid].syndrome {
                    Some(bits) => if bits.wf() {
                        Some(before + bits@)
                    } else {
                        None
                    },
                    None => None,
                }
            } else {
                None
            },
            None => None,
        }
    }
}

/// Appends the bits of a vector to a list.
fn append_bits(list: &mut Vec<bool>, bits: &BitVector)
    requires
        bits.wf(),
    ensures
        final(list)@ == old(list)@ + bits@,
{
    let mut i: u64 = 0;
    assert(list@ =~= old(list)@ + bits@.take(0));
    while i < bits.size
        invariant
            i <= bits.size,
            bits.wf(),
            list@ == old(list)@ + bits@.take(i as int),
        decreases bits.size - i,
    {
        list.push(get_bit(bits, i));
        assert(old(list)@ + bits@.take(i as int + 1) =~= (old(list)@ + bits@.take(i as int)).push(bits@[i as int]));
        i += 1;
    }
    assert(bits@.take(bits.size as int) =~= bits@);
}

/// Whether the bytes of a vector hold exactly its bits.
fn check_wf(bits: &BitVector) -> (ok: bool)
    ensures
        ok == bits.wf(),
{
    let count: u64 = bits.size / 8 + (if bits.size % 8 == 0 { 0 } else { 1 });
    bits.data.len() as u64 == count && bits.size <= usize::MAX as u64
}

proof fn lemma_joined_settles(cids: Seq<u64>, n: int, m: int, check_models: Map<u64, CheckModel>)
    requires
        0 <= n <= m <= cids.len(),
        joined_syndromes(cids.take(n), check_models) is None,
    ensures
        joined_syndromes(cids.take(m), check_models) is None,
    decreases m - n,
{
    if n < m {
        lemma_joined_settles(cids, n, m - 1, check_models);
        assert(cids.take(m).drop_last() =~= cids.take(m - 1));
    }
}

/// The syndrome of a window: the current syndromes of its check models, one after
/// the other. `None` if one of them is not known.
pub fn window_syndrome(global_cid_of: &Vec<u64>, check_models: &Registry<CheckModel>) -> (syndrome: Option<BitVector>)
    requires
        check_models.wf(),
    ensures
        match joined_syndromes(global_cid_of@, check_models@) {
            Some(expected) => syndrome matches Some(bits) && bits.wf() && bits.padded() && bits@ == expected,
            None => syndrome is None,
        },
{
    let mut bits: Vec<bool> = Vec::new();
    let mut i: usize = 0;
    proof {
        assert(global_cid_of@.take(0) =~= Seq::<u64>::empty());
        assert(global_cid_of@.take(global_cid_of@.len() as int) =~= global_cid_of@);
    }
    while i < global_cid_of.len()
        invariant
            i <= global_cid_of@.len(),
            check_models.wf(),
            global_cid_of@.take(global_cid_of@.len() as int) == global_cid_of@,
            joined_syndromes(global_cid_of@.take(i as int), check_models@) == Some(bits@),
        decreases global_cid_of@.len() - i,
    {
        let cid: u64 = global_cid_of[i];
        proof {
            assert(global_cid_of@.take(i as int + 1).drop_last() =~= global_cid_of@.take(i as int));
            assert(global_cid_of@.take(i as int + 1).last() == cid);
            if joined_syndromes(global_cid_of@.take(i as int + 1), check_models@) is None {
                lemma_joined_settles(global_cid_of@, i as int + 1, global_cid_of@.len() as int, check_models@);
            }
        }
        let Some(check_model) = check_models.get(cid) else {
            return None;
        };
        let Some(part) = &check_model.syndrome else {
            return None;
        };
        if !check_wf(part) {
            return None;
        }
        append_bits(&mut bits, part);
        i += 1;
    }
    Some(from_bits(&bits))
}

/// The check values of one check model are known.
pub open spec fn model_known(
    cid: u64,
    gadgets: Map<u64, Gadget>,
    check_models: Map<u64, CheckModel>,
    check_model_types: Map<u64, CheckModelType>,
) -> bool {
    &&& check_models.contains_key(cid)
    &&& check_model_types.contains_key(check_models[cid].instance.ctype)
    &&& gadgets.contains_key(check_models[cid].instance.gid)
    &&& detectors_known(
        gadgets,
        gadgets[check_models[cid].instance.gid],
        check_models[cid],
        checks_view(check_model_types[check_models[cid].instance.ctype].checks@),
    )
}

/// The check values of one check model.
pub open spec fn are_model_values(
    cid: u64,
    gadgets: Map<u64, Gadget>,
    check_models: Map<u64, CheckModel>,
    check_model_types: Map<u64, CheckModelType>,
    bits: Seq<bool>,
) -> bool {
    are_detectors(
        gadgets,
        gadgets[check_models[cid].instance.gid],
        check_models[cid],
        checks_view(check_model_types[check_models[cid].instance.ctype].checks@),
        bits,
    )
}

/// The check values of check models, one after the other.
pub open spec fn are_joined_values(
    cids: Seq<u64>,
    gadgets: Map<u64, Gadget>,
    check_models: Map<u64, CheckModel>,
    check_model_types: Map<u64, CheckModelType>,
    bits: Seq<bool>,
) -> bool {
    exists|parts: Seq<Seq<bool>>|
        parts.len() == cids.len() && bits == #[trigger] parts.flatten() && forall|i: int|
            0 <= i < cids.len() ==> are_model_values(#[trigger] cids[i], gadgets, check_models, check_model_types, parts[i])
}

/// The syndrome of a closed subgraph, from its outcomes: the check values of its
/// check models, one after the other. `None` if one of them is not known.
pub fn get_syndrome(
    global_cid_of: &Vec<u64>,
    gadgets: &Registry<Gadget>,
    check_models: &Registry<CheckModel>,
    check_model_types: &Registry<CheckModelType>,
) -> (syndrome: Option<BitVector>)
    requires
        gadgets.wf(),
        check_models.wf(),
        check_model_types.wf(),
    ensures
        syndrome is Some <==> forall|i: int|
            0 <= i < global_cid_of@.len() ==> model_known(
                #[trigger] global_cid_of@[i],
                gadgets@,
                check_models@,
                check_model_types@,
            ),
        syndrome matches Some(bits) ==> bits.wf() && bits.padded() && are_joined_values(
            global_cid_of@,
            gadgets@,
            check_models@,
            check_model_types@,
            bits@,
        ),
{
    let mut bits: Vec<bool> = Vec::new();
    let ghost mut parts: Seq<Seq<bool>> = Seq::empty();
    let mut i: usize = 0;
    while i < global_cid_of.len()
        invariant
            i <= global_cid_of@.len(),
            gadgets.wf(),
            check_models.wf(),
            check_model_types.wf(),
            parts.len() == i,
            bits@ == parts.flatten(),
            forall|k: int|
                0 <= k < i ==> model_known(#[trigger] global_cid_of@[k], gadgets@, check_models@, check_model_types@)
                    && are_model_values(global_cid_of@[k], gadgets@, check_models@, check_model_types@, parts[k]),
        decreases global_cid_of@.len() - i,
    {
        let cid: u64 = global_cid_of[i];
        let Some(check_model) = check_models.get(cid) else {
            return None;
        };
        let Some(check_model_type) = check_model_types.get(check_model.instance.ctype) else {
            return None;
        };
        let Some(gadget) = gadgets.get(check_model.instance.gid) else {
            return None;
        };
        let Some(part) = check_values(gadgets, gadget, check_model, &check_model_type.checks) else {
            return None;
        };
        append_bits(&mut bits, &part);
        proof {
            parts.lemma_flatten_push(part@);
            parts = parts.push(part@);
        }
        i += 1;
    }
    let packed = from_bits(&bits);
    proof {
        assert(packed@ == parts.flatten());
    }
    Some(packed)
}

// ---------------------------------------------------------------------------
// Decoder tables
// ---------------------------------------------------------------------------

/// The tables that belong to the hyperedges handed to a decoder.
#[derive(Debug, Clone, PartialEq, Eq)]
pub struct DecoderTables {
    /// the mechanism that is applied when a hyperedge fires
    pub errors: Vec<ErrorIndex>,
    /// every mechanism of a hyperedge
    pub constituents: Vec<Vec<ErrorIndex>>,
    /// their probabilities
    pub probabilities: Vec<Vec<Probability>>,
    /// the vertices of a hyperedge, before isolated vertices are removed
    pub hyperedge_vertices: Vec<Vec<u64>>,
    /// whether the applied mechanism belongs to the commit region
    pub committed: Vec<bool>,
}

/// A decoder that the decoder service holds, with its tables.
#[derive(Debug, Clone, PartialEq, Eq)]
pub struct LoadedDecoder {
    pub hid: u64,
    pub tables: DecoderTables,
    pub vertex_num: u64,
    /// the original of each vertex; none if no vertex was isolated
    pub vertex_remap: Option<Vec<u64>>,
    /// the hyperedges as the decoder has them
    pub decoder_vertices: Vec<Vec<u64>>,
}

/// Row `k` of the tables stands for the listed mechanisms.
pub open spec fn is_row(
    tables: DecoderTables,
    k: int,
    edges: Seq<WindowEdgeSpec>,
    members: Seq<usize>,
    representative: int,
    vertices: Seq<u64>,
) -> bool {
    &&& tables.errors@[k] == edges[representative].error
    &&& tables.committed@[k] == edges[representative].committed
    &&& tables.hyperedge_vertices@[k]@ == vertices
    &&& tables.constituents@[k]@ == members.map_values(|i: usize| edges[i as int].error)
    &&& tables.probabilities@[k]@ == members.map_values(|i: usize| edges[i as int].probability)
}

/// The tables have `n` rows.
pub open spec fn has_rows(tables: DecoderTables, n: int) -> bool {
    &&& tables.errors@.len() == n
    &&& tables.constituents@.len() == n
    &&& tables.probabilities@.len() == n
    &&& tables.hyperedge_vertices@.len() == n
    &&& tables.committed@.len() == n
}

/// The tables of hyperedges, one row each.
pub open spec fn are_plain_tables(tables: DecoderTables, edges: Seq<WindowEdgeSpec>) -> bool {
    &&& has_rows(tables, edges.len() as int)
    &&& forall|k: int|
        0 <= k < edges.len() ==> is_row(tables, k, edges, seq![k as usize], k, #[trigger] edges[k].vertices)
}

/// The tables of merged hyperedges.
pub open spec fn are_merged_tables(tables: DecoderTables, edges: Seq<WindowEdgeSpec>, merged: MergedEdges) -> bool {
    &&& is_merge(edges, edges.len() as int, merged)
    &&& has_rows(tables, merged.edges@.len() as int)
    &&& forall|k: int|
        0 <= k < merged.edges@.len() ==> is_row(
            tables,
            k,
            edges,
            (#[trigger] merged.edges@[k]).members@,
            merged.edges@[k].representative as int,
            merged.edges@[k].vertices@,
        )
}

/// Appends a row to the tables.
fn push_row(
    tables: &mut DecoderTables,
    edges: &Vec<WindowEdge>,
    members: &Vec<usize>,
    representative: usize,
    vertices: Vec<u64>,
)
    requires
        has_rows(*old(tables), old(tables).errors@.len() as int),
        representative < edges@.len(),
        forall|i: int| 0 <= i < members@.len() ==> members@[i] < edges@.len(),
    ensures
        has_rows(*final(tables), old(tables).errors@.len() as int + 1),
        is_row(
            *final(tables),
            old(tables).errors@.len() as int,
            window_edges_view(edges@),
            members@,
            representative as int,
            vertices@,
        ),
        forall|k: int| 0 <= k < old(tables).errors@.len() ==> final(tables).errors@[k] == #[trigger] old(tables).errors@[k],
        forall|k: int|
            0 <= k < old(tables).errors@.len() ==> final(tables).constituents@[k] == #[trigger] old(tables).constituents@[k],
        forall|k: int|
            0 <= k < old(tables).errors@.len() ==> final(tables).probabilities@[k] == #[trigger] old(tables).probabilities@[k],
        forall|k: int|
            0 <= k < old(tables).errors@.len() ==> final(tables).hyperedge_vertices@[k]
                == #[trigger] old(tables).hyperedge_vertices@[k],
        forall|k: int|
            0 <= k < old(tables).errors@.len() ==> final(tables).committed@[k] == #[trigger] old(tables).committed@[k],
{
    let ghost specs = window_edges_view(edges@);
    let mut constituents: Vec<ErrorIndex> = Vec::new();
    let mut probabilities: Vec<Probability> = Vec::new();
    let mut i: usize = 0;
    while i < members.len()
        invariant
            i <= members@.len(),
            specs == window_edges_view(edges@),
            forall|i: int| 0 <= i < members@.len() ==> members@[i] < edges@.len(),
            constituents@ =~= members@.map_values(|i: usize| specs[i as int].error).take(i as int),
            probabilities@ =~= members@.map_values(|i: usize| specs[i as int].probability).take(i as int),
        decreases members@.len() - i,
    {
        let edge = &edges[members[i]];
        assert(specs[members@[i as int] as int] == edge@);
        constituents.push(edge.error);
        probabilities.push(edge.probability);
        i += 1;
    }
    assert(constituents@ =~= members@.map_values(|i: usize| specs[i as int].error));
    assert(probabilities@ =~= members@.map_values(|i: usize| specs[i as int].probability));
    assert(specs[representative as int] == edges@[representative as int]@);
    tables.errors.push(edges[representative].error);
    tables.committed.push(edges[representative].committed);
    tables.constituents.push(constituents);
    tables.probabilities.push(probabilities);
    tables.hyperedge_vertices.push(vertices);
}

/// A row stays a row while other rows are appended.
proof fn lemma_row_kept(
    before: DecoderTables,
    after: DecoderTables,
    k: int,
    edges: Seq<WindowEdgeSpec>,
    members: Seq<usize>,
    representative: int,
    vertices: Seq<u64>,
)
    requires
        is_row(before, k, edges, members, representative, vertices),
        after.errors@[k] == before.errors@[k],
        after.constituents@[k] == before.constituents@[k],
        after.probabilities@[k] == before.probabilities@[k],
        after.hyperedge_vertices@[k] == before.hyperedge_vertices@[k],
        after.committed@[k] == before.committed@[k],
    ensures
        is_row(after, k, edges, members, representative, vertices),
{
}

/// The tables of a window's hyperedges, those with the same vertices merged if asked
/// for.
pub fn decoder_tables(edges: &Vec<WindowEdge>, merge: bool) -> (tables: DecoderTables)
    ensures
        merge ==> exists|merged: MergedEdges| #[trigger] are_merged_tables(tables, window_edges_view(edges@), merged),
        !merge ==> are_plain_tables(tables, window_edges_view(edges@)),
{
    let ghost specs = window_edges_view(edges@);
    let mut tables = DecoderTables {
        errors: Vec::new(),
        constituents: Vec::new(),
        probabilities: Vec::new(),
        hyperedge_vertices: Vec::new(),
        committed: Vec::new(),
    };
    if merge {
        let merged = merge_hyperedges(edges);
        let mut k: usize = 0;
        while k < merged.edges.len()
            invariant
                k <= merged.edges@.len(),
                specs == window_edges_view(edges@),
                is_merge(specs, edges@.len() as int, merged),
                has_rows(tables, k as int),
                forall|j: int|
                    0 <= j < k ==> is_row(
                        tables,
                        j,
                        specs,
                        (#[trigger] merged.edges@[j]).members@,
                        merged.edges@[j].representative as int,
                        merged.edges@[j].vertices@,
                    ),
            decreases merged.edges@.len() - k,
        {
            let group = &merged.edges[k];
            assert(is_group(specs, edges@.len() as int, merged.edges@[k as int]));
            proof {
                lemma_best_is_member(specs, group.members@);
                let x = choose|x: int| 0 <= x < group.members@.len() && group.members@[x] == group.representative;
                assert(group.members@[x] < edges@.len());
            }
            let ghost before = tables;
            push_row(&mut tables, edges, &group.members, group.representative, copy_vec(&group.vertices));
            proof {
                assert forall|j: int| 0 <= j < k + 1 implies is_row(
                    tables,
                    j,
                    specs,
                    (#[trigger] merged.edges@[j]).members@,
                    merged.edges@[j].representative as int,
                    merged.edges@[j].vertices@,
                ) by {
                    if j < k {
                        lemma_row_kept(
                            before,
                            tables,
                            j,
                            specs,
                            merged.edges@[j].members@,
                            merged.edges@[j].representative as int,
                            merged.edges@[j].vertices@,
                        );
                    }
                }
            }
            k += 1;
        }
        assert(are_merged_tables(tables, specs, merged));
    } else {
        let mut k: usize = 0;
        while k < edges.len()
            invariant
                k <= edges@.len(),
                specs == window_edges_view(edges@),
                has_rows(tables, k as int),
                forall|j: int|
                    0 <= j < k ==> is_row(tables, j, specs, seq![j as usize], j, #[trigger] specs[j].vertices),
            decreases edges@.len() - k,
        {
            let mut members: Vec<usize> = Vec::new();
            members.push(k);
            let ghost before = tables;
            push_row(&mut tables, edges, &members, k, copy_vec(&edges[k].vertices));
            proof {
                assert(members@ =~= seq![k]);
                assert(specs[k as int].vertices == edges@[k as int].vertices@);
                assert forall|j: int| 0 <= j < k + 1 implies is_row(tables, j, specs, seq![j as usize], j, #[trigger] specs[j].vertices) by {
                    if j < k {
                        lemma_row_kept(before, tables, j, specs, seq![j as usize], j, specs[j].vertices);
                    }
                }
            }
            k += 1;
        }
    }
    tables
}

// ---------------------------------------------------------------------------
// Reports
// ---------------------------------------------------------------------------

/// The global ids of mechanisms.
pub open spec fn global_ids(mechanisms: Seq<ErrorIndex>, global_eid_of: Seq<u64>) -> Seq<(u64, u64)> {
    mechanisms.map_values(|m: ErrorIndex| (global_eid_of[m.eid as int], m.error_index))
}

/// The mechanisms of the listed hyperedges, those inside (`inside`) or outside the
/// commit region, in order.
pub open spec fn mechanisms_of(
    indices: Seq<u64>,
    tables: DecoderTables,
    inside: bool,
    global_eid_of: Seq<u64>,
) -> Seq<(u64, u64)>
    decreases indices.len(),
{
    if indices.len() == 0 {
        Seq::empty()
    } else {
        let k = indices.last() as int;
        let before = mechanisms_of(indices.drop_last(), tables, inside, global_eid_of);
        if tables.committed@[k] == inside {
            before + global_ids(tables.constituents@[k]@, global_eid_of)
        } else {
            before
        }
    }
}

/// The numbers below `n`, in order.
pub open spec fn all_indices(n: int) -> Seq<u64> {
    Seq::new(n as nat, |i: int| i as u64)
}

/// Every mechanism of the tables belongs to an error model of the window.
pub open spec fn tables_fit(tables: DecoderTables, global_eid_of: Seq<u64>) -> bool {
    &&& has_rows(tables, tables.errors@.len() as int)
    &&& forall|k: int, j: int|
        0 <= k < tables.constituents@.len() && 0 <= j < tables.constituents@[k]@.len() ==> (
        #[trigger] tables.constituents@[k]@[j]).eid < global_eid_of.len()
    &&& forall|k: int| 0 <= k < tables.errors@.len() ==> (#[trigger] tables.errors@[k]).eid < global_eid_of.len()
}

/// Lists the mechanisms of hyperedges inside or outside the commit region.
fn list_mechanisms(indices: &Vec<u64>, tables: &DecoderTables, inside: bool, global_eid_of: &Vec<u64>) -> (list: Vec<
    (u64, u64),
>)
    requires
        tables_fit(*tables, global_eid_of@),
        forall|i: int| 0 <= i < indices@.len() ==> indices@[i] < tables.errors@.len(),
    ensures
        list@ == mechanisms_of(indices@, *tables, inside, global_eid_of@),
{
    let mut list: Vec<(u64, u64)> = Vec::new();
    let mut i: usize = 0;
    assert(indices@.take(0) =~= Seq::<u64>::empty());
    while i < indices.len()
        invariant
            i <= indices@.len(),
            tables_fit(*tables, global_eid_of@),
            forall|i: int| 0 <= i < indices@.len() ==> indices@[i] < tables.errors@.len(),
            list@ == mechanisms_of(indices@.take(i as int), *tables, inside, global_eid_of@),
        decreases indices@.len() - i,
    {
        let k: usize = indices[i] as usize;
        let ghost before = list@;
        proof {
            assert(indices@.take(i as int + 1).drop_last() =~= indices@.take(i as int));
            assert(indices@.take(i as int + 1).last() == indices@[i as int]);
            assert(indices@[i as int] < tables.errors.len());
        }
        if tables.committed[k] == inside {
            let row = &tables.constituents[k];
            let ghost ids = global_ids(row@, global_eid_of@);
            let mut j: usize = 0;
            assert(before + ids.take(0) =~= before);
            while j < row.len()
                invariant
                    k < tables.constituents@.len(),
                    tables_fit(*tables, global_eid_of@),
                    row@ == tables.constituents@[k as int]@,
                    ids == global_ids(row@, global_eid_of@),
                    j <= row@.len(),
                    list@ == before + ids.take(j as int),
                decreases row@.len() - j,
            {
                let m = row[j];
                assert(tables.constituents@[k as int]@[j as int].eid < global_eid_of.len());
                list.push((global_eid_of[m.eid as usize], m.error_index));
                assert(before + ids.take(j as int + 1) =~= (before + ids.take(j as int)).push(ids[j as int]));
                j += 1;
            }
            assert(ids.take(row@.len() as int) =~= ids);
        }
        i += 1;
    }
    assert(indices@.take(indices@.len() as int) =~= indices@);
    list
}

/// The numbers below `n`, in order.
fn count_up(n: usize) -> (indices: Vec<u64>)
    ensures
        indices@ == all_indices(n as int),
{
    let mut indices: Vec<u64> = Vec::new();
    let mut i: usize = 0;
    while i < n
        invariant
            i <= n,
            indices@ =~= all_indices(i as int),
        decreases n - i,
    {
        indices.push(i as u64);
        i += 1;
    }
    indices
}

/// The report of a decode that fired the hyperedges `subgraph`.
pub open spec fn is_report(
    report: DemPrediction,
    gid: u64,
    subgraph: Seq<u64>,
    tables: DecoderTables,
    committing_cids: Option<Set<u64>>,
    mapping: RelativeMapping,
) -> bool {
    let n = tables.errors@.len() as int;
    &&& report.gid == gid
    &&& report.seq == 0
    &&& report.window_gids@ == mapping.global_gid_of@
    &&& report.committed_edges@ == mechanisms_of(all_indices(n), tables, true, mapping.global_eid_of@)
    &&& report.buffer_edges@ == mechanisms_of(all_indices(n), tables, false, mapping.global_eid_of@)
    &&& report.fired@ == mechanisms_of(subgraph, tables, true, mapping.global_eid_of@)
    &&& report.fired_buffer@ == mechanisms_of(subgraph, tables, false, mapping.global_eid_of@)
    &&& are_flips(
        report.flips@,
        subgraph,
        vertex_lists(tables.hyperedge_vertices@),
        Some(tables.committed@),
        committing_cids,
        mapping.start_indices@,
        mapping.global_cid_of@,
    )
}

/// Reports a decode that fired the hyperedges `subgraph`: the mechanisms of the
/// window and the fired ones, split by the commit region, and the flips explained.
pub fn dem_prediction(
    gid: u64,
    subgraph: &Vec<u64>,
    tables: &DecoderTables,
    committing_cids: Option<&IdSet>,
    mapping: &RelativeMapping,
) -> (report: DemPrediction)
    requires
        tables_fit(*tables, mapping.global_eid_of@),
        flips_layout(
            subgraph@,
            tables.hyperedge_vertices@,
            Some(tables.committed@),
            mapping.start_indices@,
            mapping.global_cid_of@,
        ),
    ensures
        is_report(
            report,
            gid,
            subgraph@,
            *tables,
            (match committing_cids {
                Some(cids) => Some(cids@),
                None => None,
            }),
            *mapping,
        ),
{
    let n: usize = tables.errors.len();
    let every = count_up(n);
    proof {
        assert forall|i: int| 0 <= i < subgraph@.len() implies subgraph@[i] < n by {
            assert(subgraph@[i] < tables.hyperedge_vertices@.len());
        }
        assert forall|i: int| 0 <= i < every@.len() implies every@[i] < n by {
        }
    }
    let fired = list_mechanisms(subgraph, tables, true, &mapping.global_eid_of);
    let fired_buffer = list_mechanisms(subgraph, tables, false, &mapping.global_eid_of);
    let committed_edges = list_mechanisms(&every, tables, true, &mapping.global_eid_of);
    let buffer_edges = list_mechanisms(&every, tables, false, &mapping.global_eid_of);
    let flips = prediction_flips(
        subgraph.as_slice(),
        tables.hyperedge_vertices.as_slice(),
        Some(tables.committed.as_slice()),
        committing_cids,
        mapping.start_indices.as_slice(),
        mapping.global_cid_of.as_slice(),
    );
    DemPrediction {
        gid,
        seq: 0,
        window_gids: copy_vec(&mapping.global_gid_of),
        committed_edges,
        buffer_edges,
        fired,
        fired_buffer,
        flips,
    }
}

/// A fired mechanism is among the mechanisms of its side of the commit region.
pub proof fn law_fired_is_within_window(
    subgraph: Seq<u64>,
    tables: DecoderTables,
    inside: bool,
    global_eid_of: Seq<u64>,
    m: (u64, u64),
)
    requires
        tables.errors@.len() <= u64::MAX,
        forall|i: int| 0 <= i < subgraph.len() ==> subgraph[i] < tables.errors@.len(),
        mechanisms_of(subgraph, tables, inside, global_eid_of).contains(m),
    ensures
        mechanisms_of(all_indices(tables.errors@.len() as int), tables, inside, global_eid_of).contains(m),
    decreases subgraph.len(),
{
    if subgraph.len() > 0 {
        let k = subgraph.last();
        let before = mechanisms_of(subgraph.drop_last(), tables, inside, global_eid_of);
        let ids = global_ids(tables.constituents@[k as int]@, global_eid_of);
        assert(k == subgraph[subgraph.len() - 1]);
        if before.contains(m) {
            assert forall|i: int| 0 <= i < subgraph.drop_last().len() implies subgraph.drop_last()[i] < tables.errors@.len() by {
                assert(subgraph.drop_last()[i] == subgraph[i]);
            }
            law_fired_is_within_window(subgraph.drop_last(), tables, inside, global_eid_of, m);
        } else {
            let i = choose|i: int|
                0 <= i < mechanisms_of(subgraph, tables, inside, global_eid_of).len() && mechanisms_of(
                    subgraph,
                    tables,
                    inside,
                    global_eid_of,
                )[i] == m;
            if i < before.len() {
                assert(before[i] == m);
                assert(before.contains(m));
            }
            assert(tables.committed@[k as int] == inside);
            assert(ids[i - before.len()] == m);
            assert(ids.contains(m));
            lemma_listed(tables, inside, global_eid_of, m, k as int, tables.errors@.len() as int);
        }
    }
}

proof fn lemma_listed(tables: DecoderTables, inside: bool, global_eid_of: Seq<u64>, m: (u64, u64), k: int, n: int)
    requires
        0 <= k < n <= u64::MAX,
        tables.committed@[k] == inside,
        global_ids(tables.constituents@[k]@, global_eid_of).contains(m),
    ensures
        mechanisms_of(all_indices(n), tables, inside, global_eid_of).contains(m),
    decreases n,
{
    let all = all_indices(n);
    assert(all.drop_last() =~= all_indices(n - 1));
    let before = mechanisms_of(all_indices(n - 1), tables, inside, global_eid_of);
    let whole = mechanisms_of(all, tables, inside, global_eid_of);
    if k == n - 1 {
        let ids = global_ids(tables.constituents@[k]@, global_eid_of);
        let j = choose|j: int| 0 <= j < ids.len() && ids[j] == m;
        assert(whole == before + ids);
        assert(whole[before.len() + j] == m);
    } else {
        lemma_listed(tables, inside, global_eid_of, m, k, n - 1);
        let j = choose|j: int| 0 <= j < before.len() && before[j] == m;
        assert(whole[j] == m);
    }
}

/// The applied mechanisms of the fired hyperedges, in global ids.
pub fn global_subgraph_of(mapping: &RelativeMapping, errors: &Vec<ErrorIndex>, subgraph: &Vec<u64>) -> (mechanisms: Vec<
    (u64, u64),
>)
    requires
        forall|i: int| 0 <= i < subgraph@.len() ==> subgraph@[i] < errors@.len(),
        forall|k: int| 0 <= k < errors@.len() ==> (#[trigger] errors@[k]).eid < mapping.global_eid_of@.len(),
    ensures
        mechanisms@ == global_ids(subgraph@.map_values(|e: u64| errors@[e as int]), mapping.global_eid_of@),
{
    let mut mechanisms: Vec<(u64, u64)> = Vec::new();
    let ghost goal = global_ids(subgraph@.map_values(|e: u64| errors@[e as int]), mapping.global_eid_of@);
    let mut i: usize = 0;
    while i < subgraph.len()
        invariant
            i <= subgraph@.len(),
            forall|i: int| 0 <= i < subgraph@.len() ==> subgraph@[i] < errors@.len(),
            forall|k: int| 0 <= k < errors@.len() ==> (#[trigger] errors@[k]).eid < mapping.global_eid_of@.len(),
            goal == global_ids(subgraph@.map_values(|e: u64| errors@[e as int]), mapping.global_eid_of@),
            mechanisms@ =~= goal.take(i as int),
        decreases subgraph@.len() - i,
    {
        assert(subgraph@[i as int] < errors.len());
        let m = errors[subgraph[i] as usize];
        assert(m.eid < mapping.global_eid_of.len());
        mechanisms.push((mapping.global_eid_of[m.eid as usize], m.error_index));
        i += 1;
    }
    mechanisms
}

/// Whether the fired hyperedges produce exactly the syndrome.
pub open spec fn reproduces(subgraph: Seq<u64>, lists: Seq<Seq<u64>>, syndrome: Seq<bool>) -> bool {
    forall|v: int| 0 <= v < syndrome.len() ==> #[trigger] vertex_flips(subgraph, lists, None, true, v as u64) == syndrome[v]
}

/// The parity of vertex `v` over the fired hyperedges.
fn fired_parity(subgraph: &Vec<u64>, lists: &Vec<Vec<u64>>, v: u64) -> (odd: bool)
    requires
        forall|i: int| 0 <= i < subgraph@.len() ==> subgraph@[i] < lists@.len(),
    ensures
        odd == vertex_flips(subgraph@, vertex_lists(lists@), None, true, v),
{
    let ghost all = vertex_lists(lists@);
    let mut odd = false;
    let mut k: usize = 0;
    assert(subgraph@.take(0) =~= Seq::<u64>::empty());
    while k < subgraph.len()
        invariant
            k <= subgraph@.len(),
            all == vertex_lists(lists@),
            forall|i: int| 0 <= i < subgraph@.len() ==> subgraph@[i] < lists@.len(),
            odd == vertex_flips(subgraph@.take(k as int), all, None, true, v),
        decreases subgraph@.len() - k,
    {
        assert(subgraph@[k as int] < lists.len());
        let list = &lists[subgraph[k] as usize];
        let mut inner = false;
        let mut j: usize = 0;
        assert(list@.take(0) =~= Seq::<u64>::empty());
        while j < list.len()
            invariant
                j <= list@.len(),
                inner == occurs_oddly(list@.take(j as int), v),
            decreases list@.len() - j,
        {
            inner = inner != (list[j] == v);
            assert(list@.take(j as int + 1).drop_last() =~= list@.take(j as int));
            j += 1;
        }
        proof {
            assert(list@.take(list@.len() as int) =~= list@);
            assert(all[subgraph@[k as int] as int] == list@);
            assert(subgraph@.take(k as int + 1).drop_last() =~= subgraph@.take(k as int));
            assert(subgraph@.take(k as int + 1).last() == subgraph@[k as int]);
        }
        odd = odd != inner;
        k += 1;
    }
    assert(subgraph@.take(subgraph@.len() as int) =~= subgraph@);
    odd
}

/// Checks that a parity factor produces exactly the syndrome that was decoded.
pub fn check_parity_factor(lists: &Vec<Vec<u64>>, subgraph: &Vec<u64>, syndrome: &BitVector) -> (ok: bool)
    requires
        syndrome.wf(),
        forall|i: int| 0 <= i < subgraph@.len() ==> subgraph@[i] < lists@.len(),
    ensures
        ok == reproduces(subgraph@, vertex_lists(lists@), syndrome@),
{
    let mut v: u64 = 0;
    while v < syndrome.size
        invariant
            v <= syndrome.size,
            syndrome.wf(),
            forall|i: int| 0 <= i < subgraph@.len() ==> subgraph@[i] < lists@.len(),
            forall|u: int|
                0 <= u < v ==> #[trigger] vertex_flips(subgraph@, vertex_lists(lists@), None, true, u as u64) == syndrome@[u],
        decreases syndrome.size - v,
    {
        if fired_parity(subgraph, lists, v) != get_bit(syndrome, v) {
            assert(vertex_flips(subgraph@, vertex_lists(lists@), None, true, v as int as u64) != syndrome@[v as int]);
            return false;
        }
        v += 1;
    }
    true
}

/// The syndrome of a window is the syndromes of its check models, one after the other, and
/// is known exactly if all of them are.
pub proof fn law_window_syndrome_joins_all_syndromes(cids: Seq<u64>, check_models: Map<u64, CheckModel>)
    ensures
        joined_syndromes(cids, check_models) is Some <==> forall|i: int|
            0 <= i < cids.len() ==> check_models.contains_key(#[trigger] cids[i]) && check_models[cids[i]].syndrome is Some
                && check_models[cids[i]].syndrome->0.wf(),
        joined_syndromes(cids, check_models) is Some ==> joined_syndromes(cids, check_models)->0 == cids.map_values(
            |c: u64| check_models[c].syndrome->0@,
        ).flatten(),
    decreases cids.len(),
{
    let f = |c: u64| check_models[c].syndrome->0@;
    if cids.len() > 0 {
        let rest = cids.drop_last();
        law_window_syndrome_joins_all_syndromes(rest, check_models);
        assert forall|i: int| 0 <= i < rest.len() implies #[trigger] rest[i] == cids[i] by {
        }
        assert(cids.last() == cids[cids.len() - 1]);
        if joined_syndromes(cids, check_models) is Some {
            assert forall|i: int| 0 <= i < cids.len() implies check_models.contains_key(#[trigger] cids[i])
                && check_models[cids[i]].syndrome is Some && check_models[cids[i]].syndrome->0.wf() by {
                if i < rest.len() {
                    assert(rest[i] == cids[i]);
                }
            }
            rest.map_values(f).lemma_flatten_push(f(cids.last()));
            assert(cids.map_values(f) =~= rest.map_values(f).push(f(cids.last())));
        }
    } else {
        assert(cids.map_values(f) =~= Seq::<Seq<bool>>::empty());
    }
}

/// The syndrome of a closed subgraph holds the check values of every one of its check
/// models, one after the other.
pub proof fn law_joined_values_follow_the_check_models(
    cids: Seq<u64>,
    gadgets: Map<u64, Gadget>,
    check_models: Map<u64, CheckModel>,
    check_model_types: Map<u64, CheckModelType>,
    bits: Seq<bool>,
    parts: Seq<Seq<bool>>,
)
    requires
        are_joined_values(cids, gadgets, check_models, check_model_types, bits),
        parts.len() == cids.len(),
        forall|i: int|
            0 <= i < cids.len() ==> are_detectors(
                gadgets,
                gadgets[check_models[#[trigger] cids[i]].instance.gid],
                check_models[cids[i]],
                checks_view(check_model_types[check_models[cids[i]].instance.ctype].checks@),
                parts[i],
            ),
    ensures
        bits == parts.flatten(),
{
    let other = choose|other: Seq<Seq<bool>>|
        other.len() == cids.len() && bits == #[trigger] other.flatten() && forall|i: int|
            0 <= i < cids.len() ==> are_model_values(#[trigger] cids[i], gadgets, check_models, check_model_types, other[i]);
    assert forall|i: int| 0 <= i < cids.len() implies other[i] == parts[i] by {
        let cid = cids[i];
        let owner = gadgets[check_models[cid].instance.gid];
        let checks = checks_view(check_model_types[check_models[cid].instance.ctype].checks@);
        assert(are_model_values(cid, gadgets, check_models, check_model_types, other[i]));
        assert(are_detectors(gadgets, owner, check_models[cid], checks, parts[i]));
        assert forall|j: int| 0 <= j < checks.len() implies other[i][j] == parts[i][j] by {
            assert(detector_value(gadgets, owner, check_models[cid], checks, j) == Some(parts[i][j]));
        }
        assert(other[i] =~= parts[i]);
    }
    assert(other =~= parts);
}

/// The mechanisms of listed hyperedges are those that stand behind the hyperedges of one
/// side of the commit region, in order, under their global ids.
pub proof fn law_listed_mechanisms_stand_behind_hyperedges(
    indices: Seq<u64>,
    tables: DecoderTables,
    inside: bool,
    global_eid_of: Seq<u64>,
)
    ensures
        mechanisms_of(indices, tables, inside, global_eid_of) == indices.filter(
            |k: u64| tables.committed@[k as int] == inside,
        ).map_values(
            |k: u64|
                tables.constituents@[k as int]@.map_values(
                    |m: ErrorIndex| (global_eid_of[m.eid as int], m.error_index),
                ),
        ).flatten(),
    decreases indices.len(),
{
    reveal(Seq::filter);
    let side = |k: u64| tables.committed@[k as int] == inside;
    let ids = |k: u64|
        tables.constituents@[k as int]@.map_values(|m: ErrorIndex| (global_eid_of[m.eid as int], m.error_index));
    if indices.len() > 0 {
        let rest = indices.drop_last();
        let k = indices.last();
        law_listed_mechanisms_stand_behind_hyperedges(rest, tables, inside, global_eid_of);
        if side(k) {
            rest.filter(side).map_values(ids).lemma_flatten_push(ids(k));
            assert(indices.filter(side).map_values(ids) =~= rest.filter(side).map_values(ids).push(ids(k)));
            assert(ids(k) == global_ids(tables.constituents@[k as int]@, global_eid_of));
        }
    } else {
        assert(indices.filter(side).map_values(ids) =~= Seq::<Seq<(u64, u64)>>::empty());
    }
}

/// A report lists every mechanism of the window and every fired one, each on its side of
/// the commit region.
pub proof fn law_report_lists_the_mechanisms(
    report: DemPrediction,
    gid: u64,
    subgraph: Seq<u64>,
    tables: DecoderTables,
    committing_cids: Option<Set<u64>>,
    mapping: RelativeMapping,
    ids: spec_fn(u64) -> Seq<(u64, u64)>,
)
    requires
        is_report(report, gid, subgraph, tables, committing_cids, mapping),
        ids == (|k: u64|
            tables.constituents@[k as int]@.map_values(
                |m: ErrorIndex| (mapping.global_eid_of@[m.eid as int], m.error_index),
            )),
    ensures
        report.gid == gid,
        report.window_gids@ == mapping.global_gid_of@,
        ({
            let all = Seq::new(tables.errors@.len(), |i: int| i as u64);
            &&& report.committed_edges@ == all.filter(|k: u64| tables.committed@[k as int]).map_values(ids).flatten()
            &&& report.buffer_edges@ == all.filter(|k: u64| !tables.committed@[k as int]).map_values(ids).flatten()
            &&& report.fired@ == subgraph.filter(|k: u64| tables.committed@[k as int]).map_values(ids).flatten()
            &&& report.fired_buffer@ == subgraph.filter(|k: u64| !tables.committed@[k as int]).map_values(ids).flatten()
        }),
        are_flips(
            report.flips@,
            subgraph,
            vertex_lists(tables.hyperedge_vertices@),
            Some(tables.committed@),
            committing_cids,
            mapping.start_indices@,
            mapping.global_cid_of@,
        ),
{
    let n = tables.errors@.len();
    let all = Seq::new(n, |i: int| i as u64);
    let eids = mapping.global_eid_of@;
    assert(all_indices(n as int) =~= all);
    assert((|k: u64| tables.committed@[k as int]) =~= (|k: u64| tables.committed@[k as int] == true));
    assert((|k: u64| !tables.committed@[k as int]) =~= (|k: u64| tables.committed@[k as int] == false));
    law_listed_mechanisms_stand_behind_hyperedges(all, tables, true, eids);
    law_listed_mechanisms_stand_behind_hyperedges(all, tables, false, eids);
    law_listed_mechanisms_stand_behind_hyperedges(subgraph, tables, true, eids);
    law_listed_mechanisms_stand_behind_hyperedges(subgraph, tables, false, eids);
}

/// Fired hyperedges reproduce a syndrome exactly if each vertex is set where an odd number
/// of them have it an odd number of times.
pub proof fn law_reproduced_syndrome_is_the_parity(subgraph: Seq<u64>, lists: Seq<Seq<u64>>, syndrome: Seq<bool>, v: u64)
    requires
        reproduces(subgraph, lists, syndrome),
        v < syndrome.len(),
    ensures
        syndrome[v as int] == (subgraph.filter(
            |h: u64| lists[h as int].filter(|x: u64| x == v).len() % 2 == 1,
        ).len() % 2 == 1),
{
    assert(vertex_flips(subgraph, lists, None, true, v as int as u64) == syndrome[v as int]);
    lemma_all_hyperedges_count(subgraph, lists, v);
}

proof fn lemma_all_hyperedges_count(subgraph: Seq<u64>, lists: Seq<Seq<u64>>, v: u64)
    ensures
        vertex_flips(subgraph, lists, None, true, v) == (subgraph.filter(
            |h: u64| lists[h as int].filter(|x: u64| x == v).len() % 2 == 1,
        ).len() % 2 == 1),
    decreases subgraph.len(),
{
    reveal(Seq::filter);
    if subgraph.len() > 0 {
        lemma_all_hyperedges_count(subgraph.drop_last(), lists, v);
        law_occurrences_are_counted(lists[subgraph.last() as int], v);
    }
}

/// A syndrome that is not reproduced has a vertex whose value is not the parity of the
/// fired hyperedges.
pub proof fn law_unreproduced_syndrome_differs(subgraph: Seq<u64>, lists: Seq<Seq<u64>>, syndrome: Seq<bool>) -> (v: u64)
    requires
        syndrome.len() <= u64::MAX,
        !reproduces(subgraph, lists, syndrome),
    ensures
        v < syndrome.len(),
        syndrome[v as int] != (subgraph.filter(
            |h: u64| lists[h as int].filter(|x: u64| x == v).len() % 2 == 1,
        ).len() % 2 == 1),
{
    let u = choose|u: int|
        0 <= u < syndrome.len() && #[trigger] vertex_flips(subgraph, lists, None, true, u as u64) != syndrome[u];
    lemma_all_hyperedges_count(subgraph, lists, u as u64);
    u as u64
}

/// Without merging, row `k` of the tables is hyperedge `k`, with its own mechanism behind it.
pub proof fn law_plain_row_is_its_hyperedge(tables: DecoderTables, edges: Seq<WindowEdgeSpec>, k: int)
    requires
        are_plain_tables(tables, edges),
        0 <= k < edges.len(),
        edges.len() <= usize::MAX,
    ensures
        tables.errors@.len() == edges.len(),
        tables.errors@[k] == edges[k].error,
        tables.committed@[k] == edges[k].committed,
        tables.hyperedge_vertices@[k]@ == edges[k].vertices,
        tables.constituents@[k]@ == seq![edges[k].error],
        tables.probabilities@[k]@ == seq![edges[k].probability],
{
    assert(is_row(tables, k, edges, seq![k as usize], k, edges[k].vertices));
    assert(tables.constituents@[k]@ =~= seq![edges[k].error]);
    assert(tables.probabilities@[k]@ =~= seq![edges[k].probability]);
}

proof fn lemma_occurrences_of_a_multiset(list: Seq<u64>, v: u64)
    ensures
        list.filter(|x: u64| x == v).len() == list.to_multiset().count(v),
    decreases list.len(),
{
    broadcast use vstd::seq_lib::group_to_multiset_ensures;

    reveal(Seq::filter);
    if list.len() > 0 {
        let rest = list.drop_last();
        lemma_occurrences_of_a_multiset(rest, v);
        assert(list =~= rest.push(list.last()));
    } else {
        assert(list =~= Seq::<u64>::empty());
    }
}

/// A merged row flips what each of its hyperedges flips: it has every vertex as often as
/// they do. Behind it stand their mechanisms, and the one that is applied is one of them.
pub proof fn law_merged_row_flips_like_its_hyperedges(
    tables: DecoderTables,
    edges: Seq<WindowEdgeSpec>,
    merged: MergedEdges,
    k: int,
    j: int,
    v: u64,
)
    requires
        are_merged_tables(tables, edges, merged),
        0 <= k < merged.edges@.len(),
        0 <= j < merged.edges@[k].members@.len(),
    ensures
        ({
            let member = merged.edges@[k].members@[j] as int;
            &&& tables.hyperedge_vertices@[k]@.filter(|x: u64| x == v).len() == edges[member].vertices.filter(
                |x: u64| x == v,
            ).len()
            &&& tables.constituents@[k]@.len() == merged.edges@[k].members@.len()
            &&& tables.constituents@[k]@[j] == edges[member].error
            &&& tables.probabilities@[k]@[j] == edges[member].probability
        }),
        tables.constituents@[k]@.contains(tables.errors@[k]),
{
    let group = merged.edges@[k];
    assert(is_row(tables, k, edges, group.members@, group.representative as int, group.vertices@));
    assert(is_group(edges, edges.len() as int, group));
    let member = group.members@[j] as int;
    assert(group.members@[j] < edges.len());
    lemma_occurrences_of_a_multiset(group.vertices@, v);
    lemma_occurrences_of_a_multiset(edges[member].vertices, v);
    assert(group.vertices@.to_multiset() == edges[member].vertices.to_multiset());
    lemma_best_is_member(edges, group.members@);
    let r = group.members@.index_of(group.representative);
    assert(tables.constituents@[k]@[r] == tables.errors@[k]);
}

} // verus!
