//! Decoding hypergraphs: one vertex per check of a window, one hyperedge per error
//! mechanism that can fire.
use crate::bin::{errors_view, Error, ErrorModelType, ErrorSpec, RemoteCheck, RemoteCheckModel};
use crate::collections::{IdMap, IdSet};
use crate::dem::{effective_errors, effective_errors_spec, modifier_fits};
use crate::network::ErrorModel;
use crate::probability::Probability;
use crate::registry::Registry;
use crate::relative::{eids_of, ExpandedGadget, RelativeMapping};
use vstd::prelude::*;

verus! {

/// A mechanism of an error model, both by local number.
#[derive(Debug, Clone, Copy, PartialEq, Eq, Structural)]
pub struct ErrorIndex {
    pub eid: u64,
    pub error_index: u64,
}

/// A hyperedge of a decoding hypergraph.
#[derive(Debug, Clone, PartialEq, Eq)]
pub struct Hyperedge {
    pub vertices: Vec<u64>,
    pub probability: Probability,
}

/// The problem that a decoder is built for.
#[derive(Debug, Clone, PartialEq, Eq)]
pub struct DecodingHypergraph {
    pub vertex_num: u64,
    pub hyperedges: Vec<Hyperedge>,
}

/// A hyperedge of a window, with the mechanism that it stands for.
#[derive(Debug, Clone, PartialEq, Eq)]
pub struct WindowEdge {
    pub vertices: Vec<u64>,
    pub probability: Probability,
    pub error: ErrorIndex,
    /// whether the mechanism belongs to the commit region
    pub committed: bool,
}

/// The value of a [`WindowEdge`].
#[verifier::ext_equal]
pub struct WindowEdgeSpec {
    pub vertices: Seq<u64>,
    pub probability: Probability,
    pub error: ErrorIndex,
    pub committed: bool,
}

impl WindowEdge {
    /// The hyperedge as a mathematical value.
    pub open spec fn view(self) -> WindowEdgeSpec {
        WindowEdgeSpec {
            vertices: self.vertices@,
            probability: self.probability,
            error: self.error,
            committed: self.committed,
        }
    }
}

/// The values of a list of hyperedges.
pub open spec fn window_edges_view(edges: Seq<WindowEdge>) -> Seq<WindowEdgeSpec> {
    edges.map_values(|e: WindowEdge| e@)
}

// ---------------------------------------------------------------------------
// Projection of mechanisms onto a window
// ---------------------------------------------------------------------------

/// What the projection of an error model onto a window depends on.
#[verifier::ext_equal]
pub struct ProjectionContext {
    /// the first vertex of the owning check model; none if the window lacks it
    pub local_start: Option<int>,
    /// whether the owning check model is in the commit region
    pub committed: bool,
    /// the check model that each slot stands for
    pub remotes: Seq<Option<u64>>,
    /// the slots
    pub slots: Seq<Option<RemoteCheckModel>>,
    pub local_cid_of: Map<u64, usize>,
    pub start_indices: Seq<usize>,
}

/// A mechanism seen from a window.
pub enum Projection {
    /// the mechanism is invalid
    Fault,
    /// the mechanism is left out
    Dropped,
    /// the mechanism flips these vertices
    Vertices(Seq<u64>),
}

impl ProjectionContext {
    /// The local check model that slot `ri` stands for, if the window has it.
    pub open spec fn remote_local(self, ri: int) -> Option<int> {
        match self.remotes[ri] {
            Some(cid) => if self.local_cid_of.contains_key(cid) {
                Some(self.local_cid_of[cid] as int)
            } else {
                None
            },
            None => None,
        }
    }

    /// The vertex that a check adds: none if the window does not have it.
    pub open spec fn vertex_of(self, check: RemoteCheck) -> Option<int> {
        match check.remote_check_model {
            Some(ri) => match self.remote_local(ri as int) {
                Some(lc) => Some(self.start_indices[lc] + check.check_index + self.slots[ri as int]->0.check_bias),
                None => None,
            },
            None => match self.local_start {
                Some(start) => Some(start + check.check_index),
                None => None,
            },
        }
    }

    /// Whether a check is invalid: it names a slot that does not exist, or a vertex
    /// out of range.
    pub open spec fn check_faulty(self, check: RemoteCheck) -> bool {
        ||| (check.remote_check_model matches Some(ri) && {
            ||| ri >= self.remotes.len()
            ||| ri >= self.slots.len()
            ||| self.remote_local(ri as int) matches Some(lc) && (lc >= self.start_indices.len() || self.slots[ri as int] is None)
        })
        ||| self.vertex_of(check) matches Some(v) && v > u64::MAX
    }

    /// The first `n` checks of a mechanism, projected. A check outside the window is
    /// left out, except that a mechanism of the commit region with a remote check
    /// outside is dropped as a whole: half of it would corrupt what later windows see.
    pub open spec fn project_upto(self, checks: Seq<RemoteCheck>, n: int) -> Projection
        decreases n,
    {
        if n <= 0 {
            Projection::Vertices(Seq::empty())
        } else {
            match self.project_upto(checks, n - 1) {
                Projection::Vertices(vertices) => {
                    let check = checks[n - 1];
                    if self.check_faulty(check) {
                        Projection::Fault
                    } else {
                        match self.vertex_of(check) {
                            Some(v) => Projection::Vertices(vertices.push(v as u64)),
                            None => if check.remote_check_model is Some && self.committed {
                                Projection::Dropped
                            } else {
                                Projection::Vertices(vertices)
                            },
                        }
                    }
                },
                other => other,
            }
        }
    }

    /// A mechanism, projected.
    pub open spec fn project(self, error: ErrorSpec) -> Projection {
        self.project_upto(error.checks, error.checks.len() as int)
    }

    /// The hyperedges of the first `n` mechanisms of error model `local_eid`: those
    /// that can fire and flip a vertex. None if a mechanism is invalid.
    pub open spec fn edges_upto(self, local_eid: int, errors: Seq<ErrorSpec>, n: int) -> Option<Seq<WindowEdgeSpec>>
        decreases n,
    {
        if n <= 0 {
            Some(Seq::empty())
        } else {
            match self.edges_upto(local_eid, errors, n - 1) {
                Some(edges) => {
                    let error = errors[n - 1];
                    if error.probability.non_positive() {
                        Some(edges)
                    } else {
                        match self.project(error) {
                            Projection::Fault => None,
                            Projection::Dropped => Some(edges),
                            Projection::Vertices(vertices) => if vertices.len() == 0 {
                                Some(edges)
                            } else {
                                Some(
                                    edges.push(
                                        WindowEdgeSpec {
                                            vertices,
                                            probability: error.probability,
                                            error: ErrorIndex { eid: local_eid as u64, error_index: (n - 1) as u64 },
                                            committed: self.committed,
                                        },
                                    ),
                                )
                            },
                        }
                    }
                },
                None => None,
            }
        }
    }
}

/// Whether a check model is in the commit region; without a region every one is.
pub open spec fn cid_commits(committing_cids: Option<Set<u64>>, cid: u64) -> bool {
    committing_cids matches Some(cids) ==> cids.contains(cid)
}

/// The context of error model `k` of a gadget.
pub open spec fn context_of(
    gadget: ExpandedGadget,
    k: int,
    error_model: ErrorModel,
    local_cid_of: Map<u64, usize>,
    start_indices: Seq<usize>,
    committing_cids: Option<Set<u64>>,
) -> ProjectionContext {
    ProjectionContext {
        local_start: match gadget.check_model {
            Some(cm) => Some(start_indices[local_cid_of[cm.cid] as int] as int),
            None => None,
        },
        committed: gadget.check_model matches Some(cm) && cid_commits(committing_cids, cm.cid),
        remotes: gadget.error_models@[k].remote_check_models@,
        slots: error_model.modified_remote_check_models@,
        local_cid_of,
        start_indices,
    }
}

/// The hyperedges of error model `k` of a gadget.
pub open spec fn model_edges(
    gadget: ExpandedGadget,
    k: int,
    local_eid: int,
    error_models: Map<u64, ErrorModel>,
    error_model_types: Map<u64, ErrorModelType>,
    local_cid_of: Map<u64, usize>,
    start_indices: Seq<usize>,
    committing_cids: Option<Set<u64>>,
) -> Option<Seq<WindowEdgeSpec>> {
    let eid = gadget.error_models@[k].eid;
    if !error_models.contains_key(eid) || !error_model_types.contains_key(error_models[eid].instance.etype) {
        None
    } else {
        let model = error_models[eid];
        let base = errors_view(error_model_types[model.instance.etype].errors@);
        if !modifier_fits(base.len(), model.instance) {
            None
        } else {
            let errors = effective_errors_spec(base, model.instance);
            context_of(gadget, k, model, local_cid_of, start_indices, committing_cids).edges_upto(
                local_eid,
                errors,
                base.len() as int,
            )
        }
    }
}

/// The hyperedges of the first `n` error models of a gadget.
pub open spec fn gadget_edges(
    gadget: ExpandedGadget,
    n: int,
    eid_bias: int,
    error_models: Map<u64, ErrorModel>,
    error_model_types: Map<u64, ErrorModelType>,
    local_cid_of: Map<u64, usize>,
    start_indices: Seq<usize>,
    committing_cids: Option<Set<u64>>,
) -> Option<Seq<WindowEdgeSpec>>
    decreases n,
{
    if n <= 0 {
        Some(Seq::empty())
    } else {
        match (
            gadget_edges(
                gadget,
                n - 1,
                eid_bias,
                error_models,
                error_model_types,
                local_cid_of,
                start_indices,
                committing_cids,
            ),
            model_edges(
                gadget,
                n - 1,
                eid_bias + n - 1,
                error_models,
                error_model_types,
                local_cid_of,
                start_indices,
                committing_cids,
            ),
        ) {
            (Some(before), Some(edges)) => Some(before + edges),
            _ => None,
        }
    }
}

/// The hyperedges of the first `n` gadgets of a window.
pub open spec fn window_edges(
    gadgets: Seq<ExpandedGadget>,
    n: int,
    error_models: Map<u64, ErrorModel>,
    error_model_types: Map<u64, ErrorModelType>,
    local_cid_of: Map<u64, usize>,
    start_indices: Seq<usize>,
    committing_cids: Option<Set<u64>>,
) -> Option<Seq<WindowEdgeSpec>>
    decreases n,
{
    if n <= 0 {
        Some(Seq::empty())
    } else {
        match (
            window_edges(
                gadgets,
                n - 1,
                error_models,
                error_model_types,
                local_cid_of,
                start_indices,
                committing_cids,
            ),
            gadget_edges(
                gadgets[n - 1],
                gadgets[n - 1].error_models@.len() as int,
                eids_of(gadgets.take(n - 1)).len() as int,
                error_models,
                error_model_types,
                local_cid_of,
                start_indices,
                committing_cids,
            ),
        ) {
            (Some(before), Some(edges)) => Some(before + edges),
            _ => None,
        }
    }
}

/// The mechanism, projected onto the window: `Ok` holds its vertices, or nothing if
/// the mechanism is dropped; `Err` if the mechanism is invalid.
fn project_error(
    error: &Error,
    local_start: Option<u64>,
    committed: bool,
    remotes: &Vec<Option<u64>>,
    slots: &Vec<Option<RemoteCheckModel>>,
    local_cid_of: &IdMap,
    start_indices: &Vec<usize>,
    Ghost(context): Ghost<ProjectionContext>,
) -> (projected: Result<Option<Vec<u64>>, ()>)
    requires
        context == (ProjectionContext {
            local_start: match local_start {
                Some(s) => Some(s as int),
                None => None,
            },
            committed,
            remotes: remotes@,
            slots: slots@,
            local_cid_of: local_cid_of@,
            start_indices: start_indices@,
        }),
    ensures
        match projected {
            Err(()) => context.project(error@) is Fault,
            Ok(None) => context.project(error@) is Dropped,
            Ok(Some(vertices)) => context.project(error@) == Projection::Vertices(vertices@),
        },
{
    let mut vertices: Vec<u64> = Vec::new();
    let mut n: usize = 0;
    while n < error.checks.len()
        invariant
            n <= error.checks@.len(),
            context == (ProjectionContext {
                local_start: match local_start {
                    Some(s) => Some(s as int),
                    None => None,
                },
                committed,
                remotes: remotes@,
                slots: slots@,
                local_cid_of: local_cid_of@,
                start_indices: start_indices@,
            }),
            context.project_upto(error@.checks, n as int) == Projection::Vertices(vertices@),
        decreases error.checks@.len() - n,
    {
        let check = error.checks[n];
        let ghost whole = error@.checks.len() as int;
        if let Some(ri) = check.remote_check_model {
            if ri >= remotes.len() as u64 || ri >= slots.len() as u64 {
                proof {
                    assert(context.check_faulty(check));
                    lemma_projection_settles(context, error@.checks, n as int + 1, whole);
                }
                return Err(());
            }
            let local = match remotes[ri as usize] {
                Some(cid) => local_cid_of.get(cid),
                None => None,
            };
            match local {
                Some(lc) => {
                    if lc >= start_indices.len() || slots[ri as usize].is_none() {
                        proof {
                            assert(context.check_faulty(check));
                            lemma_projection_settles(context, error@.checks, n as int + 1, whole);
                        }
                        return Err(());
                    }
                    let bias: u64 = slots[ri as usize].unwrap().check_bias;
                    let vertex: u128 = start_indices[lc] as u128 + check.check_index as u128 + bias as u128;
                    if vertex > u64::MAX as u128 {
                        proof {
                            assert(context.check_faulty(check));
                            lemma_projection_settles(context, error@.checks, n as int + 1, whole);
                        }
                        return Err(());
                    }
                    vertices.push(vertex as u64);
                },
                None => {
                    if committed {
                        proof {
                            lemma_projection_settles(context, error@.checks, n as int + 1, whole);
                        }
                        return Ok(None);
                    }
                },
            }
        } else {
            if let Some(start) = local_start {
                let vertex: u128 = start as u128 + check.check_index as u128;
                if vertex > u64::MAX as u128 {
                    proof {
                        assert(context.check_faulty(check));
                        lemma_projection_settles(context, error@.checks, n as int + 1, whole);
                    }
                    return Err(());
                }
                vertices.push(vertex as u64);
            }
        }
        n += 1;
    }
    Ok(Some(vertices))
}

/// Once a mechanism is dropped or invalid, its other checks do not matter.
proof fn lemma_projection_settles(context: ProjectionContext, checks: Seq<RemoteCheck>, n: int, m: int)
    requires
        0 <= n <= m,
        !(context.project_upto(checks, n) is Vertices),
    ensures
        context.project_upto(checks, m) == context.project_upto(checks, n),
    decreases m - n,
{
    if n < m {
        lemma_projection_settles(context, checks, n, m - 1);
    }
}

/// Whether every probability of an instance belongs to one of `count` mechanisms.
pub fn check_modifier_fits(count: usize, instance: &crate::bin::ErrorModel) -> (fits: bool)
    ensures
        fits == modifier_fits(count as nat, *instance),
{
    if let Some(modifier) = &instance.modifier {
        if let Some(p) = &modifier.probability_modifier {
            if p.probabilities.len() > count {
                return false;
            }
            let n: usize = if p.sparse_indices.len() <= p.sparse_probabilities.len() {
                p.sparse_indices.len()
            } else {
                p.sparse_probabilities.len()
            };
            let mut i: usize = 0;
            while i < n
                invariant
                    instance.modifier == Some(*modifier),
                    modifier.probability_modifier == Some(*p),
                    i <= n <= p.sparse_indices@.len(),
                    n <= p.sparse_probabilities@.len(),
                    forall|k: int| 0 <= k < i ==> (#[trigger] p.sparse_indices@[k]) < count,
                decreases n - i,
            {
                if p.sparse_indices[i] >= count as u64 {
                    assert(p.sparse_indices@[i as int] >= count);
                    return false;
                }
                i += 1;
            }
        }
    }
    true
}

/// Appends the hyperedges of error model `k` of a gadget; false if it is invalid.
fn push_model_edges(
    edges: &mut Vec<WindowEdge>,
    gadget: &ExpandedGadget,
    k: usize,
    local_eid: u64,
    error_models: &Registry<ErrorModel>,
    error_model_types: &Registry<ErrorModelType>,
    mapping: &RelativeMapping,
    committing_cids: Option<&IdSet>,
) -> (valid: bool)
    requires
        error_models.wf(),
        error_model_types.wf(),
        k < gadget.error_models@.len(),
        gadget.check_model matches Some(cm) ==> mapping.local_cid_of@.contains_key(cm.cid)
            && mapping.local_cid_of@[cm.cid] < mapping.start_indices@.len(),
    ensures
        match model_edges(
            *gadget,
            k as int,
            local_eid as int,
            error_models@,
            error_model_types@,
            mapping.local_cid_of@,
            mapping.start_indices@,
            (match committing_cids {
                Some(cids) => Some(cids@),
                None => None,
            }),
        ) {
            Some(fresh) => valid && window_edges_view(final(edges)@) == window_edges_view(old(edges)@) + fresh,
            None => !valid,
        },
{
    let ghost cids: Option<Set<u64>> = match committing_cids {
        Some(cids) => Some(cids@),
        None => None,
    };
    let eid: u64 = gadget.error_models[k].eid;
    let Some(error_model) = error_models.get(eid) else {
        return false;
    };
    let Some(error_model_type) = error_model_types.get(error_model.instance.etype) else {
        return false;
    };
    if !check_modifier_fits(error_model_type.errors.len(), &error_model.instance) {
        return false;
    }
    let errors = effective_errors(error_model_type, &error_model.instance);
    let (local_start, committed): (Option<u64>, bool) = match &gadget.check_model {
        Some(cm) => {
            let lc: usize = mapping.local_cid_of.get(cm.cid).unwrap();
            let committed = match committing_cids {
                Some(cids) => cids.contains(cm.cid),
                None => true,
            };
            (Some(mapping.start_indices[lc] as u64), committed)
        },
        None => (None, false),
    };
    let ghost context = context_of(
        *gadget,
        k as int,
        *error_model,
        mapping.local_cid_of@,
        mapping.start_indices@,
        cids,
    );
    let ghost specs = errors_view(errors@);
    let ghost before = window_edges_view(edges@);
    let ghost goal = model_edges(
        *gadget,
        k as int,
        local_eid as int,
        error_models@,
        error_model_types@,
        mapping.local_cid_of@,
        mapping.start_indices@,
        cids,
    );
    let mut n: usize = 0;
    assert(before + Seq::<WindowEdgeSpec>::empty() =~= before);
    assert(goal == context.edges_upto(local_eid as int, specs, specs.len() as int));
    while n < errors.len()
        invariant
            goal == context.edges_upto(local_eid as int, specs, specs.len() as int),
            cids == (match committing_cids {
                Some(cids) => Some(cids@),
                None => None,
            }),
            goal == model_edges(
                *gadget,
                k as int,
                local_eid as int,
                error_models@,
                error_model_types@,
                mapping.local_cid_of@,
                mapping.start_indices@,
                cids,
            ),
            n <= errors@.len(),
            k < gadget.error_models@.len(),
            specs == errors_view(errors@),
            context == (ProjectionContext {
                local_start: match local_start {
                    Some(s) => Some(s as int),
                    None => None,
                },
                committed,
                remotes: gadget.error_models@[k as int].remote_check_models@,
                slots: error_model.modified_remote_check_models@,
                local_cid_of: mapping.local_cid_of@,
                start_indices: mapping.start_indices@,
            }),
            context.edges_upto(local_eid as int, specs, n as int) is Some,
            window_edges_view(edges@) == before + context.edges_upto(local_eid as int, specs, n as int)->0,
        decreases errors@.len() - n,
    {
        let error = &errors[n];
        assert(specs[n as int] == error@);
        if !error.probability.is_non_positive() {
            match project_error(
                error,
                local_start,
                committed,
                &gadget.error_models[k].remote_check_models,
                &error_model.modified_remote_check_models,
                &mapping.local_cid_of,
                &mapping.start_indices,
                Ghost(context),
            ) {
                Err(()) => {
                    proof {
                        lemma_edges_settle(context, local_eid as int, specs, n as int + 1, specs.len() as int);
                    }
                    return false;
                },
                Ok(None) => {},
                Ok(Some(vertices)) => {
                    if vertices.len() > 0 {
                        let ghost listed = edges@;
                        let edge = WindowEdge {
                            vertices,
                            probability: error.probability,
                            error: ErrorIndex { eid: local_eid, error_index: n as u64 },
                            committed,
                        };
                        edges.push(edge);
                        proof {
                            let upto = context.edges_upto(local_eid as int, specs, n as int)->0;
                            assert(window_edges_view(edges@) =~= window_edges_view(listed).push(edge@));
                            assert((before + upto).push(edge@) =~= before + upto.push(edge@));
                        }
                    }
                },
            }
        }
        n += 1;
    }
    true
}

proof fn lemma_edges_settle(context: ProjectionContext, local_eid: int, errors: Seq<ErrorSpec>, n: int, m: int)
    requires
        0 <= n <= m,
        context.edges_upto(local_eid, errors, n) is None,
    ensures
        context.edges_upto(local_eid, errors, m) is None,
    decreases m - n,
{
    if n < m {
        lemma_edges_settle(context, local_eid, errors, n, m - 1);
    }
}

/// What the check models of a window need of its mapping.
spec fn gadget_numbered(gadget: ExpandedGadget, mapping: RelativeMapping) -> bool {
    gadget.check_model matches Some(cm) ==> mapping.local_cid_of@.contains_key(cm.cid) && mapping.local_cid_of@[cm.cid]
        < mapping.start_indices@.len()
}

/// Appends the hyperedges of a gadget; false if one of its error models is invalid.
fn push_gadget_edges(
    edges: &mut Vec<WindowEdge>,
    gadget: &ExpandedGadget,
    eid_bias: usize,
    error_models: &Registry<ErrorModel>,
    error_model_types: &Registry<ErrorModelType>,
    mapping: &RelativeMapping,
    committing_cids: Option<&IdSet>,
) -> (valid: bool)
    requires
        error_models.wf(),
        error_model_types.wf(),
        gadget_numbered(*gadget, *mapping),
        eid_bias + gadget.error_models@.len() <= usize::MAX,
    ensures
        match gadget_edges(
            *gadget,
            gadget.error_models@.len() as int,
            eid_bias as int,
            error_models@,
            error_model_types@,
            mapping.local_cid_of@,
            mapping.start_indices@,
            (match committing_cids {
                Some(cids) => Some(cids@),
                None => None,
            }),
        ) {
            Some(fresh) => valid && window_edges_view(final(edges)@) == window_edges_view(old(edges)@) + fresh,
            None => !valid,
        },
{
    let ghost cids: Option<Set<u64>> = match committing_cids {
        Some(cids) => Some(cids@),
        None => None,
    };
    let ghost before = window_edges_view(edges@);
    let ghost upto = |n: int|
        gadget_edges(
            *gadget,
            n,
            eid_bias as int,
            error_models@,
            error_model_types@,
            mapping.local_cid_of@,
            mapping.start_indices@,
            cids,
        );
    let mut k: usize = 0;
    assert(before + Seq::<WindowEdgeSpec>::empty() =~= before);
    while k < gadget.error_models.len()
        invariant
            error_models.wf(),
            error_model_types.wf(),
            gadget_numbered(*gadget, *mapping),
            eid_bias + gadget.error_models@.len() <= usize::MAX,
            k <= gadget.error_models@.len(),
            cids == (match committing_cids {
                Some(cids) => Some(cids@),
                None => None,
            }),
            upto == (|n: int|
                gadget_edges(
                    *gadget,
                    n,
                    eid_bias as int,
                    error_models@,
                    error_model_types@,
                    mapping.local_cid_of@,
                    mapping.start_indices@,
                    cids,
                )),
            upto(k as int) is Some,
            window_edges_view(edges@) == before + upto(k as int)->0,
        decreases gadget.error_models@.len() - k,
    {
        let ghost listed = window_edges_view(edges@);
        let local_eid: u64 = (eid_bias + k) as u64;
        let valid = push_model_edges(
            edges,
            gadget,
            k,
            local_eid,
            error_models,
            error_model_types,
            mapping,
            committing_cids,
        );
        if !valid {
            proof {
                assert(upto(k as int + 1) is None);
                lemma_gadget_edges_settle(
                    *gadget,
                    k as int + 1,
                    gadget.error_models@.len() as int,
                    eid_bias as int,
                    error_models@,
                    error_model_types@,
                    mapping.local_cid_of@,
                    mapping.start_indices@,
                    cids,
                );
            }
            return false;
        }
        proof {
            let fresh = model_edges(
                *gadget,
                k as int,
                local_eid as int,
                error_models@,
                error_model_types@,
                mapping.local_cid_of@,
                mapping.start_indices@,
                cids,
            )->0;
            assert((before + upto(k as int)->0) + fresh =~= before + (upto(k as int)->0 + fresh));
        }
        k += 1;
    }
    true
}

proof fn lemma_gadget_edges_settle(
    gadget: ExpandedGadget,
    n: int,
    m: int,
    eid_bias: int,
    error_models: Map<u64, ErrorModel>,
    error_model_types: Map<u64, ErrorModelType>,
    local_cid_of: Map<u64, usize>,
    start_indices: Seq<usize>,
    cids: Option<Set<u64>>,
)
    requires
        0 <= n <= m,
        gadget_edges(gadget, n, eid_bias, error_models, error_model_types, local_cid_of, start_indices, cids) is None,
    ensures
        gadget_edges(gadget, m, eid_bias, error_models, error_model_types, local_cid_of, start_indices, cids) is None,
    decreases m - n,
{
    if n < m {
        lemma_gadget_edges_settle(
            gadget,
            n,
            m - 1,
            eid_bias,
            error_models,
            error_model_types,
            local_cid_of,
            start_indices,
            cids,
        );
    }
}

proof fn lemma_window_edges_settle(
    gadgets: Seq<ExpandedGadget>,
    n: int,
    m: int,
    error_models: Map<u64, ErrorModel>,
    error_model_types: Map<u64, ErrorModelType>,
    local_cid_of: Map<u64, usize>,
    start_indices: Seq<usize>,
    cids: Option<Set<u64>>,
)
    requires
        0 <= n <= m,
        window_edges(gadgets, n, error_models, error_model_types, local_cid_of, start_indices, cids) is None,
    ensures
        window_edges(gadgets, m, error_models, error_model_types, local_cid_of, start_indices, cids) is None,
    decreases m - n,
{
    if n < m {
        lemma_window_edges_settle(
            gadgets,
            n,
            m - 1,
            error_models,
            error_model_types,
            local_cid_of,
            start_indices,
            cids,
        );
    }
}

/// The hyperedges of a window, one for each mechanism that can fire and flips a
/// vertex of the window, in the order of the gadgets, their error models and the
/// mechanisms. `None` if an error model or its type is unknown, or if it is invalid.
///
/// A mechanism of a gadget outside the commit region keeps the vertices that the
/// window has; one of the commit region is dropped if it reaches out of the window.
/// Without `committing_cids` every check model commits.
pub fn decoding_hypergraph(
    gadgets: &Vec<ExpandedGadget>,
    mapping: &RelativeMapping,
    error_models: &Registry<ErrorModel>,
    error_model_types: &Registry<ErrorModelType>,
    committing_cids: Option<&IdSet>,
) -> (edges: Option<Vec<WindowEdge>>)
    requires
        mapping.numbers(gadgets@),
        error_models.wf(),
        error_model_types.wf(),
    ensures
        match window_edges(
            gadgets@,
            gadgets@.len() as int,
            error_models@,
            error_model_types@,
            mapping.local_cid_of@,
            mapping.start_indices@,
            (match committing_cids {
                Some(cids) => Some(cids@),
                None => None,
            }),
        ) {
            Some(expected) => edges matches Some(list) && window_edges_view(list@) == expected,
            None => edges is None,
        },
{
    let ghost cids: Option<Set<u64>> = match committing_cids {
        Some(cids) => Some(cids@),
        None => None,
    };
    let ghost upto = |n: int|
        window_edges(
            gadgets@,
            n,
            error_models@,
            error_model_types@,
            mapping.local_cid_of@,
            mapping.start_indices@,
            cids,
        );
    let mut edges: Vec<WindowEdge> = Vec::new();
    let mut n: usize = 0;
    assert(window_edges_view(edges@) =~= Seq::<WindowEdgeSpec>::empty());
    while n < gadgets.len()
        invariant
            mapping.numbers(gadgets@),
            error_models.wf(),
            error_model_types.wf(),
            n <= gadgets@.len(),
            cids == (match committing_cids {
                Some(cids) => Some(cids@),
                None => None,
            }),
            upto == (|n: int|
                window_edges(
                    gadgets@,
                    n,
                    error_models@,
                    error_model_types@,
                    mapping.local_cid_of@,
                    mapping.start_indices@,
                    cids,
                )),
            upto(n as int) is Some,
            window_edges_view(edges@) == upto(n as int)->0,
        decreases gadgets@.len() - n,
    {
        let gadget = &gadgets[n];
        proof {
            crate::relative::lemma_gadget_numbered(gadgets@, n as int);
        }
        let bias: usize = mapping.local_eid_bias[n];
        assert(gadget_numbered(*gadget, *mapping));
        assert(mapping.global_eid_of.len() == eids_of(gadgets@).len());
        let valid = push_gadget_edges(
            &mut edges,
            gadget,
            bias,
            error_models,
            error_model_types,
            mapping,
            committing_cids,
        );
        if !valid {
            proof {
                assert(upto(n as int + 1) is None);
                lemma_window_edges_settle(
                    gadgets@,
                    n as int + 1,
                    gadgets@.len() as int,
                    error_models@,
                    error_model_types@,
                    mapping.local_cid_of@,
                    mapping.start_indices@,
                    cids,
                );
            }
            return None;
        }
        n += 1;
    }
    Some(edges)
}

/// A mechanism of the commit region appears with all of its checks, or not at all.
pub proof fn law_committed_mechanism_is_whole(context: ProjectionContext, error: ErrorSpec)
    requires
        context.committed,
        context.local_start is Some,
        context.project(error) is Vertices,
    ensures
        context.project(error)->Vertices_0 == error.checks.map_values(|c: RemoteCheck| context.vertex_of(c)->0 as u64),
{
    lemma_whole_upto(context, error.checks, error.checks.len() as int);
    assert(error.checks.take(error.checks.len() as int) =~= error.checks);
}

proof fn lemma_whole_upto(context: ProjectionContext, checks: Seq<RemoteCheck>, n: int)
    requires
        context.committed,
        context.local_start is Some,
        0 <= n <= checks.len(),
        context.project_upto(checks, n) is Vertices,
    ensures
        context.project_upto(checks, n)->Vertices_0 == checks.take(n).map_values(|c: RemoteCheck| context.vertex_of(c)->0 as u64),
    decreases n,
{
    let f = |c: RemoteCheck| context.vertex_of(c)->0 as u64;
    if n > 0 {
        lemma_whole_upto(context, checks, n - 1);
        assert(checks.take(n).map_values(f) =~= checks.take(n - 1).map_values(f).push(f(checks[n - 1])));
    } else {
        assert(checks.take(n).map_values(f) =~= Seq::<u64>::empty());
    }
}

proof fn lemma_projection_lists(context: ProjectionContext, checks: Seq<RemoteCheck>, n: int)
    requires
        0 <= n <= checks.len(),
        context.project_upto(checks, n) is Vertices,
    ensures
        context.project_upto(checks, n)->Vertices_0 == checks.take(n).filter(
            |c: RemoteCheck|
                match c.remote_check_model {
                    Some(ri) => context.remotes[ri as int] is Some && context.local_cid_of.contains_key(
                        context.remotes[ri as int]->0,
                    ),
                    None => context.local_start is Some,
                },
        ).map_values(
            |c: RemoteCheck|
                (match c.remote_check_model {
                    Some(ri) => context.start_indices[context.local_cid_of[context.remotes[ri as int]->0] as int]
                        + c.check_index + context.slots[ri as int]->0.check_bias,
                    None => context.local_start->0 + c.check_index,
                }) as u64,
        ),
    decreases n,
{
    reveal(Seq::filter);
    let inside = |c: RemoteCheck|
        match c.remote_check_model {
            Some(ri) => context.remotes[ri as int] is Some && context.local_cid_of.contains_key(context.remotes[ri as int]->0),
            None => context.local_start is Some,
        };
    let vertex = |c: RemoteCheck|
        (match c.remote_check_model {
            Some(ri) => context.start_indices[context.local_cid_of[context.remotes[ri as int]->0] as int] + c.check_index
                + context.slots[ri as int]->0.check_bias,
            None => context.local_start->0 + c.check_index,
        }) as u64;
    if n > 0 {
        lemma_projection_lists(context, checks, n - 1);
        let (before, after) = (checks.take(n - 1), checks.take(n));
        assert(after.drop_last() =~= before);
        assert(after.last() == checks[n - 1]);
        if inside(checks[n - 1]) {
            assert(after.filter(inside) == before.filter(inside).push(checks[n - 1]));
            assert(after.filter(inside).map_values(vertex) =~= before.filter(inside).map_values(vertex).push(
                vertex(checks[n - 1]),
            ));
        } else {
            assert(after.filter(inside) == before.filter(inside));
        }
    } else {
        assert(checks.take(n) =~= Seq::<RemoteCheck>::empty());
        assert(checks.take(n).filter(inside).map_values(vertex) =~= Seq::<u64>::empty());
    }
}

/// The vertices of a mechanism in the hypergraph are those of its checks that the window
/// has, in order. A check of the own check model counts from its first vertex. A check of
/// a remote check model counts from the first vertex of that one, and from the bias of
/// the slot.
pub proof fn law_mechanism_vertices_name_its_checks(
    gadget: ExpandedGadget,
    k: int,
    model: ErrorModel,
    local_cid_of: Map<u64, usize>,
    start_indices: Seq<usize>,
    committing_cids: Option<Set<u64>>,
    error: ErrorSpec,
)
    requires
        context_of(gadget, k, model, local_cid_of, start_indices, committing_cids).project(error) is Vertices,
    ensures
        ({
            let remotes = gadget.error_models@[k].remote_check_models@;
            let slots = model.modified_remote_check_models@;
            context_of(gadget, k, model, local_cid_of, start_indices, committing_cids).project(error)->Vertices_0
                == error.checks.filter(
                |c: RemoteCheck|
                    match c.remote_check_model {
                        Some(ri) => remotes[ri as int] is Some && local_cid_of.contains_key(remotes[ri as int]->0),
                        None => gadget.check_model is Some,
                    },
            ).map_values(
                |c: RemoteCheck|
                    (match c.remote_check_model {
                        Some(ri) => start_indices[local_cid_of[remotes[ri as int]->0] as int] + c.check_index
                            + slots[ri as int]->0.check_bias,
                        None => start_indices[local_cid_of[gadget.check_model->0.cid] as int] + c.check_index,
                    }) as u64,
            )
        }),
{
    let context = context_of(gadget, k, model, local_cid_of, start_indices, committing_cids);
    let remotes = gadget.error_models@[k].remote_check_models@;
    let slots = model.modified_remote_check_models@;
    let checks = error.checks;
    lemma_projection_lists(context, checks, checks.len() as int);
    assert(checks.take(checks.len() as int) =~= checks);
    let inside = |c: RemoteCheck|
        match c.remote_check_model {
            Some(ri) => context.remotes[ri as int] is Some && context.local_cid_of.contains_key(context.remotes[ri as int]->0),
            None => context.local_start is Some,
        };
    let inside_here = |c: RemoteCheck|
        match c.remote_check_model {
            Some(ri) => remotes[ri as int] is Some && local_cid_of.contains_key(remotes[ri as int]->0),
            None => gadget.check_model is Some,
        };
    assert(inside =~= inside_here);
    let vertex = |c: RemoteCheck|
        (match c.remote_check_model {
            Some(ri) => context.start_indices[context.local_cid_of[context.remotes[ri as int]->0] as int] + c.check_index
                + context.slots[ri as int]->0.check_bias,
            None => context.local_start->0 + c.check_index,
        }) as u64;
    let vertex_here = |c: RemoteCheck|
        (match c.remote_check_model {
            Some(ri) => start_indices[local_cid_of[remotes[ri as int]->0] as int] + c.check_index
                + slots[ri as int]->0.check_bias,
            None => start_indices[local_cid_of[gadget.check_model->0.cid] as int] + c.check_index,
        }) as u64;
    let kept = checks.filter(inside_here);
    checks.filter_lemma(inside_here);
    assert forall|i: int| 0 <= i < kept.len() implies vertex(kept[i]) == vertex_here(kept[i]) by {
        assert(inside_here(kept[i]));
    }
    assert(kept.map_values(vertex) =~= kept.map_values(vertex_here));
}

/// A mechanism is dropped only if its error model belongs to a check model of the commit
/// region and it reaches a check model that the window lacks.
pub proof fn law_dropped_mechanism_leaves_the_window(
    gadget: ExpandedGadget,
    k: int,
    model: ErrorModel,
    local_cid_of: Map<u64, usize>,
    start_indices: Seq<usize>,
    committing_cids: Option<Set<u64>>,
    error: ErrorSpec,
)
    requires
        context_of(gadget, k, model, local_cid_of, start_indices, committing_cids).project(error) is Dropped,
    ensures
        gadget.check_model is Some,
        committing_cids matches Some(cids) ==> cids.contains(gadget.check_model->0.cid),
        exists|i: int|
            0 <= i < error.checks.len() && (#[trigger] error.checks[i].remote_check_model matches Some(ri) && ({
                let remotes = gadget.error_models@[k].remote_check_models@;
                remotes[ri as int] is None || !local_cid_of.contains_key(remotes[ri as int]->0)
            })),
{
    lemma_dropped_upto(
        context_of(gadget, k, model, local_cid_of, start_indices, committing_cids),
        error.checks,
        error.checks.len() as int,
    );
}

proof fn lemma_dropped_upto(context: ProjectionContext, checks: Seq<RemoteCheck>, n: int)
    requires
        0 <= n <= checks.len(),
        context.project_upto(checks, n) is Dropped,
    ensures
        context.committed,
        exists|i: int|
            0 <= i < n && (#[trigger] checks[i].remote_check_model matches Some(ri) && (context.remotes[ri as int] is None
                || !context.local_cid_of.contains_key(context.remotes[ri as int]->0))),
    decreases n,
{
    if n > 0 {
        if context.project_upto(checks, n - 1) is Dropped {
            lemma_dropped_upto(context, checks, n - 1);
        } else {
            assert(checks[n - 1].remote_check_model is Some);
        }
    }
}

/// The hyperedges of an error model are those of its mechanisms that can fire and have a
/// vertex in the window, in order; each carries the probability and the number of its
/// mechanism.
pub proof fn law_hyperedges_are_the_mechanisms(context: ProjectionContext, local_eid: int, errors: Seq<ErrorSpec>, n: int)
    requires
        0 <= n,
        context.edges_upto(local_eid, errors, n) is Some,
    ensures
        context.edges_upto(local_eid, errors, n)->0 == Seq::new(n as nat, |j: int| j).filter(
            |j: int|
                !errors[j].probability.non_positive() && context.project(errors[j]) is Vertices && context.project(
                    errors[j],
                )->Vertices_0.len() > 0,
        ).map_values(
            |j: int|
                WindowEdgeSpec {
                    vertices: context.project(errors[j])->Vertices_0,
                    probability: errors[j].probability,
                    error: ErrorIndex { eid: local_eid as u64, error_index: j as u64 },
                    committed: context.committed,
                },
        ),
    decreases n,
{
    reveal(Seq::filter);
    let kept = |j: int|
        !errors[j].probability.non_positive() && context.project(errors[j]) is Vertices && context.project(
            errors[j],
        )->Vertices_0.len() > 0;
    let edge = |j: int|
        WindowEdgeSpec {
            vertices: context.project(errors[j])->Vertices_0,
            probability: errors[j].probability,
            error: ErrorIndex { eid: local_eid as u64, error_index: j as u64 },
            committed: context.committed,
        };
    let all = Seq::new(n as nat, |j: int| j);
    if n > 0 {
        law_hyperedges_are_the_mechanisms(context, local_eid, errors, n - 1);
        let before = Seq::new((n - 1) as nat, |j: int| j);
        assert(all.drop_last() =~= before);
        assert(all.last() == n - 1);
        if kept(n - 1) {
            assert(all.filter(kept) == before.filter(kept).push(n - 1));
            assert(all.filter(kept).map_values(edge) =~= before.filter(kept).map_values(edge).push(edge(n - 1)));
        } else {
            assert(all.filter(kept) == before.filter(kept));
        }
    } else {
        assert(all =~= Seq::<int>::empty());
        assert(all.filter(kept).map_values(edge) =~= Seq::<WindowEdgeSpec>::empty());
    }
}

/// A mechanism is invalid only if one of its checks names a slot that does not exist, or
/// stands for a vertex that cannot be numbered. One without such a check, and with all its
/// checks inside the window, is there with as many vertices as it has checks.
pub proof fn law_mechanism_inside_is_kept(context: ProjectionContext, error: ErrorSpec)
    requires
        forall|i: int|
            0 <= i < error.checks.len() ==> match (#[trigger] error.checks[i]).remote_check_model {
                Some(ri) => {
                    &&& ri < context.remotes.len()
                    &&& ri < context.slots.len()
                    &&& context.remotes[ri as int] is Some
                    &&& context.local_cid_of.contains_key(context.remotes[ri as int]->0)
                    &&& context.local_cid_of[context.remotes[ri as int]->0] < context.start_indices.len()
                    &&& context.slots[ri as int] is Some
                    &&& context.start_indices[context.local_cid_of[context.remotes[ri as int]->0] as int]
                        + error.checks[i].check_index + context.slots[ri as int]->0.check_bias <= u64::MAX
                },
                None => context.local_start is Some && context.local_start->0 + error.checks[i].check_index <= u64::MAX,
            },
    ensures
        context.project(error) is Vertices,
        context.project(error)->Vertices_0.len() == error.checks.len(),
{
    lemma_inside_upto(context, error.checks, error.checks.len() as int);
}

proof fn lemma_inside_upto(context: ProjectionContext, checks: Seq<RemoteCheck>, n: int)
    requires
        0 <= n <= checks.len(),
        forall|i: int|
            0 <= i < checks.len() ==> match (#[trigger] checks[i]).remote_check_model {
                Some(ri) => {
                    &&& ri < context.remotes.len()
                    &&& ri < context.slots.len()
                    &&& context.remotes[ri as int] is Some
                    &&& context.local_cid_of.contains_key(context.remotes[ri as int]->0)
                    &&& context.local_cid_of[context.remotes[ri as int]->0] < context.start_indices.len()
                    &&& context.slots[ri as int] is Some
                    &&& context.start_indices[context.local_cid_of[context.remotes[ri as int]->0] as int]
                        + checks[i].check_index + context.slots[ri as int]->0.check_bias <= u64::MAX
                },
                None => context.local_start is Some && context.local_start->0 + checks[i].check_index <= u64::MAX,
            },
    ensures
        context.project_upto(checks, n) is Vertices,
        context.project_upto(checks, n)->Vertices_0.len() == n,
    decreases n,
{
    if n > 0 {
        lemma_inside_upto(context, checks, n - 1);
        assert(!context.check_faulty(checks[n - 1]));
    }
}

/// A mechanism of the commit region with valid checks is dropped if one of its remote
/// checks is outside the window: no part of it is seen.
pub proof fn law_partial_mechanism_is_dropped(context: ProjectionContext, error: ErrorSpec, i: int)
    requires
        context.committed,
        !(context.project(error) is Fault),
        0 <= i < error.checks.len(),
        error.checks[i].remote_check_model is Some,
        context.remotes[error.checks[i].remote_check_model->0 as int] is None || !context.local_cid_of.contains_key(
            context.remotes[error.checks[i].remote_check_model->0 as int]->0,
        ),
    ensures
        context.project(error) is Dropped,
{
    lemma_partial_upto(context, error.checks, i, error.checks.len() as int);
}

proof fn lemma_partial_upto(context: ProjectionContext, checks: Seq<RemoteCheck>, i: int, n: int)
    requires
        context.committed,
        0 <= i < n <= checks.len(),
        checks[i].remote_check_model is Some,
        context.remotes[checks[i].remote_check_model->0 as int] is None || !context.local_cid_of.contains_key(
            context.remotes[checks[i].remote_check_model->0 as int]->0,
        ),
    ensures
        !(context.project_upto(checks, n) is Vertices),
    decreases n,
{
    if i < n - 1 {
        lemma_partial_upto(context, checks, i, n - 1);
    }
}

/// The hyperedges of an error model are those of all mechanisms of its type that can fire
/// with the probabilities of the instance and have a vertex in the window.
pub proof fn law_error_model_has_all_its_hyperedges(
    gadget: ExpandedGadget,
    k: int,
    local_eid: int,
    error_models: Map<u64, ErrorModel>,
    error_model_types: Map<u64, ErrorModelType>,
    local_cid_of: Map<u64, usize>,
    start_indices: Seq<usize>,
    committing_cids: Option<Set<u64>>,
)
    requires
        model_edges(
            gadget,
            k,
            local_eid,
            error_models,
            error_model_types,
            local_cid_of,
            start_indices,
            committing_cids,
        ) is Some,
    ensures
        ({
            let model = error_models[gadget.error_models@[k].eid];
            let base = errors_view(error_model_types[model.instance.etype].errors@);
            let errors = effective_errors_spec(base, model.instance);
            let context = context_of(gadget, k, model, local_cid_of, start_indices, committing_cids);
            let committed = gadget.check_model is Some && (committing_cids matches Some(cids) ==> cids.contains(
                gadget.check_model->0.cid,
            ));
            model_edges(
                gadget,
                k,
                local_eid,
                error_models,
                error_model_types,
                local_cid_of,
                start_indices,
                committing_cids,
            )->0 == Seq::new(error_model_types[model.instance.etype].errors@.len(), |j: int| j).filter(
                |j: int|
                    !errors[j].probability.non_positive() && context.project(errors[j]) is Vertices && context.project(
                        errors[j],
                    )->Vertices_0.len() > 0,
            ).map_values(
                |j: int|
                    WindowEdgeSpec {
                        vertices: context.project(errors[j])->Vertices_0,
                        probability: errors[j].probability,
                        error: ErrorIndex { eid: local_eid as u64, error_index: j as u64 },
                        committed,
                    },
            )
        }),
{
    let model = error_models[gadget.error_models@[k].eid];
    let base = errors_view(error_model_types[model.instance.etype].errors@);
    let errors = effective_errors_spec(base, model.instance);
    let context = context_of(gadget, k, model, local_cid_of, start_indices, committing_cids);
    law_hyperedges_are_the_mechanisms(context, local_eid, errors, base.len() as int);
    let committed = gadget.check_model is Some && (committing_cids matches Some(cids) ==> cids.contains(
        gadget.check_model->0.cid,
    ));
    assert(context.committed == committed);
    let shown = |j: int|
        WindowEdgeSpec {
            vertices: context.project(errors[j])->Vertices_0,
            probability: errors[j].probability,
            error: ErrorIndex { eid: local_eid as u64, error_index: j as u64 },
            committed: context.committed,
        };
    let stated = |j: int|
        WindowEdgeSpec {
            vertices: context.project(errors[j])->Vertices_0,
            probability: errors[j].probability,
            error: ErrorIndex { eid: local_eid as u64, error_index: j as u64 },
            committed,
        };
    assert(shown =~= stated);
}

proof fn lemma_all_selected(edges: Seq<WindowEdgeSpec>, eid: u64, other: u64)
    requires
        forall|i: int| 0 <= i < edges.len() ==> (#[trigger] edges[i]).error.eid == other,
    ensures
        eid == other ==> edges.filter(|e: WindowEdgeSpec| e.error.eid == eid) == edges,
        eid != other ==> edges.filter(|e: WindowEdgeSpec| e.error.eid == eid) == Seq::<WindowEdgeSpec>::empty(),
    decreases edges.len(),
{
    reveal(Seq::filter);
    if edges.len() > 0 {
        let rest = edges.drop_last();
        assert forall|i: int| 0 <= i < rest.len() implies (#[trigger] rest[i]).error.eid == other by {
            assert(rest[i] == edges[i]);
        }
        lemma_all_selected(rest, eid, other);
        assert(edges.last().error.eid == other);
        assert(rest.push(edges.last()) =~= edges);
    }
}

proof fn lemma_model_edges_numbered(
    gadget: ExpandedGadget,
    k: int,
    local_eid: int,
    error_models: Map<u64, ErrorModel>,
    error_model_types: Map<u64, ErrorModelType>,
    local_cid_of: Map<u64, usize>,
    start_indices: Seq<usize>,
    committing_cids: Option<Set<u64>>,
)
    requires
        model_edges(
            gadget,
            k,
            local_eid,
            error_models,
            error_model_types,
            local_cid_of,
            start_indices,
            committing_cids,
        ) is Some,
    ensures
        ({
            let edges = model_edges(
                gadget,
                k,
                local_eid,
                error_models,
                error_model_types,
                local_cid_of,
                start_indices,
                committing_cids,
            )->0;
            forall|i: int| 0 <= i < edges.len() ==> (#[trigger] edges[i]).error.eid == local_eid as u64
        }),
{
    law_error_model_has_all_its_hyperedges(
        gadget,
        k,
        local_eid,
        error_models,
        error_model_types,
        local_cid_of,
        start_indices,
        committing_cids,
    );
}

proof fn lemma_gadget_edges_selected(
    gadget: ExpandedGadget,
    n: int,
    eid_bias: int,
    error_models: Map<u64, ErrorModel>,
    error_model_types: Map<u64, ErrorModelType>,
    local_cid_of: Map<u64, usize>,
    start_indices: Seq<usize>,
    committing_cids: Option<Set<u64>>,
    eid: u64,
)
    requires
        0 <= n,
        0 <= eid_bias,
        eid_bias + n <= u64::MAX,
        gadget_edges(
            gadget,
            n,
            eid_bias,
            error_models,
            error_model_types,
            local_cid_of,
            start_indices,
            committing_cids,
        ) is Some,
    ensures
        ({
            let edges = gadget_edges(
                gadget,
                n,
                eid_bias,
                error_models,
                error_model_types,
                local_cid_of,
                start_indices,
                committing_cids,
            )->0;
            let selected = edges.filter(|e: WindowEdgeSpec| e.error.eid == eid);
            &&& eid_bias <= eid < eid_bias + n ==> model_edges(
                gadget,
                eid - eid_bias,
                eid as int,
                error_models,
                error_model_types,
                local_cid_of,
                start_indices,
                committing_cids,
            ) == Some(selected)
            &&& !(eid_bias <= eid < eid_bias + n) ==> selected == Seq::<WindowEdgeSpec>::empty()
        }),
    decreases n,
{
    reveal(Seq::filter);
    if n > 0 {
        lemma_gadget_edges_selected(
            gadget,
            n - 1,
            eid_bias,
            error_models,
            error_model_types,
            local_cid_of,
            start_indices,
            committing_cids,
            eid,
        );
        let before = gadget_edges(
            gadget,
            n - 1,
            eid_bias,
            error_models,
            error_model_types,
            local_cid_of,
            start_indices,
            committing_cids,
        )->0;
        let more = model_edges(
            gadget,
            n - 1,
            eid_bias + n - 1,
            error_models,
            error_model_types,
            local_cid_of,
            start_indices,
            committing_cids,
        )->0;
        lemma_model_edges_numbered(
            gadget,
            n - 1,
            eid_bias + n - 1,
            error_models,
            error_model_types,
            local_cid_of,
            start_indices,
            committing_cids,
        );
        lemma_all_selected(more, eid, (eid_bias + n - 1) as u64);
        Seq::filter_distributes_over_add(before, more, |e: WindowEdgeSpec| e.error.eid == eid);
        let none = Seq::<WindowEdgeSpec>::empty();
        assert(none + more =~= more);
        assert(before.filter(|e: WindowEdgeSpec| e.error.eid == eid) + none =~= before.filter(
            |e: WindowEdgeSpec| e.error.eid == eid,
        ));
    }
}

proof fn lemma_error_models_before(gadgets: Seq<ExpandedGadget>, g: int, n: int)
    requires
        0 <= g <= n <= gadgets.len(),
    ensures
        eids_of(gadgets.take(g)).len() <= eids_of(gadgets.take(n)).len(),
        g < n ==> eids_of(gadgets.take(g)).len() + gadgets[g].error_models@.len() <= eids_of(gadgets.take(n)).len(),
    decreases n,
{
    if g < n {
        assert(gadgets.take(n).drop_last() =~= gadgets.take(n - 1));
        lemma_error_models_before(gadgets, g, n - 1);
    }
}

/// The hyperedges of a window that carry the number of an error model are the hyperedges
/// of that error model: each error model of each gadget is there, once, under its own
/// number.
pub proof fn law_window_has_the_hyperedges_of_its_error_models(
    gadgets: Seq<ExpandedGadget>,
    n: int,
    error_models: Map<u64, ErrorModel>,
    error_model_types: Map<u64, ErrorModelType>,
    local_cid_of: Map<u64, usize>,
    start_indices: Seq<usize>,
    committing_cids: Option<Set<u64>>,
    g: int,
    k: int,
    eid: u64,
)
    requires
        0 <= g < n <= gadgets.len(),
        0 <= k < gadgets[g].error_models@.len(),
        eids_of(gadgets.take(n)).len() <= u64::MAX,
        eid == eids_of(gadgets.take(g)).len() + k,
        window_edges(
            gadgets,
            n,
            error_models,
            error_model_types,
            local_cid_of,
            start_indices,
            committing_cids,
        ) is Some,
    ensures
        model_edges(
            gadgets[g],
            k,
            eid as int,
            error_models,
            error_model_types,
            local_cid_of,
            start_indices,
            committing_cids,
        ) == Some(
            window_edges(
                gadgets,
                n,
                error_models,
                error_model_types,
                local_cid_of,
                start_indices,
                committing_cids,
            )->0.filter(|e: WindowEdgeSpec| e.error.eid == eid),
        ),
    decreases n,
{
    lemma_window_edges_selected(
        gadgets,
        n,
        error_models,
        error_model_types,
        local_cid_of,
        start_indices,
        committing_cids,
        g,
        k,
        eid,
    );
}

proof fn lemma_window_edges_selected(
    gadgets: Seq<ExpandedGadget>,
    n: int,
    error_models: Map<u64, ErrorModel>,
    error_model_types: Map<u64, ErrorModelType>,
    local_cid_of: Map<u64, usize>,
    start_indices: Seq<usize>,
    committing_cids: Option<Set<u64>>,
    g: int,
    k: int,
    eid: u64,
)
    requires
        0 <= g < gadgets.len(),
        0 <= n <= gadgets.len(),
        0 <= k < gadgets[g].error_models@.len(),
        eids_of(gadgets.take(n)).len() <= u64::MAX,
        eid == eids_of(gadgets.take(g)).len() + k,
        window_edges(
            gadgets,
            n,
            error_models,
            error_model_types,
            local_cid_of,
            start_indices,
            committing_cids,
        ) is Some,
    ensures
        ({
            let selected = window_edges(
                gadgets,
                n,
                error_models,
                error_model_types,
                local_cid_of,
                start_indices,
                committing_cids,
            )->0.filter(|e: WindowEdgeSpec| e.error.eid == eid);
            &&& g < n ==> model_edges(
                gadgets[g],
                k,
                eid as int,
                error_models,
                error_model_types,
                local_cid_of,
                start_indices,
                committing_cids,
            ) == Some(selected)
            &&& n <= g ==> selected == Seq::<WindowEdgeSpec>::empty()
        }),
    decreases n,
{
    reveal(Seq::filter);
    if n > 0 {
        let own = gadgets[n - 1];
        let bias = eids_of(gadgets.take(n - 1)).len() as int;
        assert(gadgets.take(n).drop_last() =~= gadgets.take(n - 1));
        assert(eids_of(gadgets.take(n)).len() == bias + own.error_models@.len());
        lemma_window_edges_selected(
            gadgets,
            n - 1,
            error_models,
            error_model_types,
            local_cid_of,
            start_indices,
            committing_cids,
            g,
            k,
            eid,
        );
        lemma_gadget_edges_selected(
            own,
            own.error_models@.len() as int,
            bias,
            error_models,
            error_model_types,
            local_cid_of,
            start_indices,
            committing_cids,
            eid,
        );
        let before = window_edges(
            gadgets,
            n - 1,
            error_models,
            error_model_types,
            local_cid_of,
            start_indices,
            committing_cids,
        )->0;
        let more = gadget_edges(
            own,
            own.error_models@.len() as int,
            bias,
            error_models,
            error_model_types,
            local_cid_of,
            start_indices,
            committing_cids,
        )->0;
        Seq::filter_distributes_over_add(before, more, |e: WindowEdgeSpec| e.error.eid == eid);
        let none = Seq::<WindowEdgeSpec>::empty();
        if g < n - 1 {
            lemma_error_models_before(gadgets, g, n - 1);
            assert(before.filter(|e: WindowEdgeSpec| e.error.eid == eid) + none =~= before.filter(
                |e: WindowEdgeSpec| e.error.eid == eid,
            ));
        } else {
            if n <= g {
                lemma_error_models_before(gadgets, n - 1, g);
            }
            assert(none + more.filter(|e: WindowEdgeSpec| e.error.eid == eid) =~= more.filter(
                |e: WindowEdgeSpec| e.error.eid == eid,
            ));
        }
    }
}

/// An error model has hyperedges exactly if it and its type are known, its probabilities
/// belong to mechanisms, and no mechanism that can fire is invalid.
pub proof fn law_valid_error_model_has_hyperedges(
    gadget: ExpandedGadget,
    k: int,
    local_eid: int,
    error_models: Map<u64, ErrorModel>,
    error_model_types: Map<u64, ErrorModelType>,
    local_cid_of: Map<u64, usize>,
    start_indices: Seq<usize>,
    committing_cids: Option<Set<u64>>,
)
    ensures
        model_edges(
            gadget,
            k,
            local_eid,
            error_models,
            error_model_types,
            local_cid_of,
            start_indices,
            committing_cids,
        ) is Some <==> {
            let model = error_models[gadget.error_models@[k].eid];
            let base = errors_view(error_model_types[model.instance.etype].errors@);
            let errors = effective_errors_spec(base, model.instance);
            &&& error_models.contains_key(gadget.error_models@[k].eid)
            &&& error_model_types.contains_key(model.instance.etype)
            &&& modifier_fits(base.len(), model.instance)
            &&& forall|j: int|
                0 <= j < base.len() ==> (#[trigger] errors[j]).probability.non_positive() || !(context_of(
                    gadget,
                    k,
                    model,
                    local_cid_of,
                    start_indices,
                    committing_cids,
                ).project(errors[j]) is Fault)
        },
{
    let model = error_models[gadget.error_models@[k].eid];
    let base = errors_view(error_model_types[model.instance.etype].errors@);
    lemma_valid_upto(
        context_of(gadget, k, model, local_cid_of, start_indices, committing_cids),
        local_eid,
        effective_errors_spec(base, model.instance),
        base.len() as int,
    );
}

proof fn lemma_valid_upto(context: ProjectionContext, local_eid: int, errors: Seq<ErrorSpec>, n: int)
    requires
        0 <= n,
    ensures
        context.edges_upto(local_eid, errors, n) is Some <==> forall|j: int|
            0 <= j < n ==> (#[trigger] errors[j]).probability.non_positive() || !(context.project(errors[j]) is Fault),
    decreases n,
{
    if n > 0 {
        lemma_valid_upto(context, local_eid, errors, n - 1);
        assert(errors[n - 1] == errors[n - 1]);
    }
}

proof fn lemma_gadget_valid(
    gadget: ExpandedGadget,
    n: int,
    eid_bias: int,
    error_models: Map<u64, ErrorModel>,
    error_model_types: Map<u64, ErrorModelType>,
    local_cid_of: Map<u64, usize>,
    start_indices: Seq<usize>,
    committing_cids: Option<Set<u64>>,
)
    requires
        0 <= n,
        forall|k: int|
            #![trigger gadget.error_models@[k]]
            0 <= k < n ==> model_edges(
                gadget,
                k,
                eid_bias + k,
                error_models,
                error_model_types,
                local_cid_of,
                start_indices,
                committing_cids,
            ) is Some,
    ensures
        gadget_edges(
            gadget,
            n,
            eid_bias,
            error_models,
            error_model_types,
            local_cid_of,
            start_indices,
            committing_cids,
        ) is Some,
    decreases n,
{
    if n > 0 {
        lemma_gadget_valid(
            gadget,
            n - 1,
            eid_bias,
            error_models,
            error_model_types,
            local_cid_of,
            start_indices,
            committing_cids,
        );
        assert(gadget.error_models@[n - 1] == gadget.error_models@[n - 1]);
    }
}

/// A window has hyperedges if every error model of it has.
pub proof fn law_valid_window_has_hyperedges(
    gadgets: Seq<ExpandedGadget>,
    n: int,
    error_models: Map<u64, ErrorModel>,
    error_model_types: Map<u64, ErrorModelType>,
    local_cid_of: Map<u64, usize>,
    start_indices: Seq<usize>,
    committing_cids: Option<Set<u64>>,
)
    requires
        0 <= n <= gadgets.len(),
        forall|g: int, k: int|
            #![trigger gadgets[g].error_models@[k]]
            0 <= g < n && 0 <= k < gadgets[g].error_models@.len() ==> model_edges(
                gadgets[g],
                k,
                eids_of(gadgets.take(g)).len() + k,
                error_models,
                error_model_types,
                local_cid_of,
                start_indices,
                committing_cids,
            ) is Some,
    ensures
        window_edges(
            gadgets,
            n,
            error_models,
            error_model_types,
            local_cid_of,
            start_indices,
            committing_cids,
        ) is Some,
    decreases n,
{
    if n > 0 {
        law_valid_window_has_hyperedges(
            gadgets,
            n - 1,
            error_models,
            error_model_types,
            local_cid_of,
            start_indices,
            committing_cids,
        );
        lemma_gadget_valid(
            gadgets[n - 1],
            gadgets[n - 1].error_models@.len() as int,
            eids_of(gadgets.take(n - 1)).len() as int,
            error_models,
            error_model_types,
            local_cid_of,
            start_indices,
            committing_cids,
        );
    }
}

} // verus!
