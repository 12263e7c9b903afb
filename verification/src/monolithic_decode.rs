//! Decoding a connected part of the program as a whole: loading outcomes, taking the
//! part out of the program, resolving its references, and numbering it.
use crate::bin::{copy_vec, CheckModelType, Connector};
use crate::bit_vector::BitVector;
use crate::collections::IdMap;
use crate::coordinator::{apply_loss_random_imputation, filled_in, Outcomes, ResetRequest};
use crate::dem_log::{DemLog, DemState};
use crate::generator::Generator;
use crate::library::Types;
use crate::monolithic::MonolithicCoordinator;
use crate::network::{CheckModel, ErrorModel, Gadget};
use crate::readouts::{compute_readouts, raw_readouts, readable};
use crate::registry::Registry;
use crate::relative::{ExpandedCheckModel, ExpandedErrorModel, ExpandedGadget};
use crate::remote::{
    check_model_slots, expand_remote_check_models, expand_remote_gadgets, expands_check_models, expands_gadgets, gadget_slots,
    Unresolved,
};
use crate::status::{decimal, labelled_then, Status, StatusCode};
use crate::subgraph::TakenSubgraph;
use crate::union_find::{minus, MonolithicUnionNode};
use crate::window_program::{
    error_model_view, gadget_view, gadgets_view, inputs_of, CheckModelView, ErrorModelView, GadgetView,
};
use vstd::prelude::*;

verus! {

// ---------------------------------------------------------------------------
// Loading outcomes
// ---------------------------------------------------------------------------

/// What loading the outcomes of a gadget gives.
#[derive(Debug)]
pub struct LoadedOutcomes {
    /// whether nothing is missing in the gadget's part of the program any more, so that
    /// the part is to be decoded now
    pub is_final_gadget: bool,
    /// the raw readouts
    pub readouts: Vec<bool>,
}

/// Two gadgets that differ in their outcomes only.
pub open spec fn same_but_outcomes(a: Gadget, b: Gadget) -> bool {
    &&& a.instance == b.instance
    &&& a.decode_ready == b.decode_ready
    &&& a.binding_cid == b.binding_cid
    &&& a.outputs == b.outputs
    &&& a.pauli_frame == b.pauli_frame
    &&& a.is_free_hop == b.is_free_hop
    &&& a.state == b.state
}

/// The counts of a cluster after one of its gadgets was loaded.
pub open spec fn with_loaded(node: MonolithicUnionNode) -> MonolithicUnionNode {
    MonolithicUnionNode { num_unloaded_gadgets: minus(node.num_unloaded_gadgets, 1), ..node }
}

/// What loading outcomes makes of the program.
pub open spec fn outcomes_loaded(
    before: MonolithicCoordinator,
    after: MonolithicCoordinator,
    gid: u64,
    bits: BitVector,
    loaded: LoadedOutcomes,
) -> bool {
    let node = before.gid_to_union_index@[gid] as int;
    let gadget_type = before.types@.gadget_types[before.gadgets@[gid].instance.gtype];
    &&& after.config == before.config
    &&& after.types@ == before.types@
    &&& after.next_gid == before.next_gid
    &&& after.next_cid == before.next_cid
    &&& after.next_eid == before.next_eid
    &&& after.check_models@ == before.check_models@
    &&& after.error_models@ == before.error_models@
    &&& after.gid_to_union_index@ == before.gid_to_union_index@
    &&& after.dem_log@ == before.dem_log@
    &&& after.gadgets@.dom() == before.gadgets@.dom()
    &&& forall|g: u64| #[trigger] before.gadgets@.contains_key(g) && g != gid ==> after.gadgets@[g] == before.gadgets@[g]
    &&& same_but_outcomes(before.gadgets@[gid], after.gadgets@[gid])
    &&& after.gadgets@[gid].outcomes == Some(bits)
    &&& after.pending_subgraphs@ == before.pending_subgraphs@.with_node(node, with_loaded(before.pending_subgraphs@.node(node)))
    &&& loaded.is_final_gadget == with_loaded(before.pending_subgraphs@.node(node)).complete()
    &&& loaded.readouts@ == raw_readouts(gadget_type.readouts@, bits@)
}

/// The failure that a decode request meets before anything is loaded.
pub open spec fn decode_refused(c: MonolithicCoordinator, request: Outcomes) -> Option<(StatusCode, Seq<char>)> {
    if !c.gadgets@.contains_key(request.gid) {
        Some((StatusCode::NotFound, "gid="@ + decimal(request.gid as nat)))
    } else if c.gadgets@[request.gid].outcomes is Some {
        Some((StatusCode::AlreadyExists, "gid="@ + decimal(request.gid as nat) + " outcomes loaded"@))
    } else if request.outcomes is None {
        Some((StatusCode::InvalidArgument, "missing outcomes"@))
    } else {
        None
    }
}

/// The bits that are stored: those of the request, with lost ones filled in if a
/// generator is at hand.
pub open spec fn stored_bits(request: Outcomes, bits: BitVector, rng: Option<(Generator, Generator)>) -> bool {
    match (rng, request.loss_mask) {
        (Some((before, after)), Some(mask)) => filled_in(request.outcomes->0, mask, before, after, bits),
        (Some((before, after)), None) => Some(bits) == request.outcomes && after == before,
        (None, _) => Some(bits) == request.outcomes,
    }
}

impl MonolithicCoordinator {
    /// Stores the outcomes of a gadget that has none yet.
    pub fn load_outcomes(&mut self, gid: u64, bits: BitVector) -> (loaded: LoadedOutcomes)
        requires
            old(self).wf(),
            old(self).gadgets@.contains_key(gid),
            bits.wf(),
            readable(
                old(self).types@.gadget_types[old(self).gadgets@[gid].instance.gtype].readouts@,
                bits.size as nat,
            ),
        ensures
            final(self).wf(),
            outcomes_loaded(*old(self), *final(self), gid, bits, loaded),
    {
        let ghost before = *self;
        let gtype: u64 = self.gadgets.get(gid).unwrap().instance.gtype;
        assert(self.types@.gadget_types.contains_key(gtype));
        let readouts = compute_readouts(self.types.gadget_types.get(gtype).unwrap(), &bits);
        self.gadgets.get_mut(gid).outcomes = Some(bits);
        let union_index: usize = self.gid_to_union_index.get(gid).unwrap();
        let node = self.pending_subgraphs.get(union_index);
        let num_unloaded_gadgets: usize = node.num_unloaded_gadgets.wrapping_sub(1);
        self.pending_subgraphs.set_counts(union_index, num_unloaded_gadgets, node.num_unconnected_outputs);
        let is_final_gadget = num_unloaded_gadgets == 0 && node.num_unconnected_outputs == 0;
        proof {
            assert(self.gadgets@.dom() =~= before.gadgets@.dom());
            assert forall|g: u64| #[trigger] self.gadgets@.contains_key(g) implies self.gid_to_union_index@.contains_key(g)
                && self.gid_to_union_index@[g] < self.pending_subgraphs@.label.len() && self.types@.gadget_types.contains_key(
                self.gadgets@[g].instance.gtype,
            ) by {
                assert(before.gadgets@.contains_key(g));
            }
        }
        LoadedOutcomes { is_final_gadget, readouts }
    }

    /// Starts a decode: stores the outcomes of a gadget, lost ones filled in first.
    pub fn begin_decode(&mut self, request: Outcomes, rng: Option<&mut Generator>) -> (answer: Result<
        LoadedOutcomes,
        Status,
    >)
        requires
            old(self).wf(),
            request.outcomes matches Some(bits) ==> bits.wf() && (old(self).gadgets@.contains_key(request.gid) ==> readable(
                old(self).types@.gadget_types[old(self).gadgets@[request.gid].instance.gtype].readouts@,
                bits.size as nat,
            )),
            request.mask_fits(),
        ensures
            final(self).wf(),
            match decode_refused(*old(self), request) {
                Some((code, message)) => answer matches Err(status) && status.is(code, message) && *final(self) == *old(self)
                    && (rng matches Some(r) ==> *final(r) == *r),
                None => answer matches Ok(loaded) && final(self).gadgets@[request.gid].outcomes matches Some(bits) && stored_bits(
                    request,
                    bits,
                    match rng {
                        Some(r) => Some((*r, *final(r))),
                        None => None,
                    },
                ) && outcomes_loaded(*old(self), *final(self), request.gid, bits, loaded),
            },
    {
        let gid: u64 = request.gid;
        let Some(gadget) = self.gadgets.get(gid) else {
            return Err(Status::with_id(StatusCode::NotFound, "gid=", gid));
        };
        if gadget.outcomes.is_some() {
            return Err(
                Status { code: StatusCode::AlreadyExists, message: labelled_then("gid=", gid, " outcomes loaded") },
            );
        }
        let Some(mut bits) = request.outcomes else {
            return Err(Status::new(StatusCode::InvalidArgument, "missing outcomes"));
        };
        if let Some(rng) = rng {
            if let Some(mask) = &request.loss_mask {
                apply_loss_random_imputation(&mut bits, mask, rng);
            }
        }
        Ok(self.load_outcomes(gid, bits))
    }

    /// Clears the running program, and the types if asked to. Whether the log records
    /// stays as it is.
    pub fn reset(&mut self, flags: ResetRequest)
        requires
            old(self).wf(),
        ensures
            final(self).wf(),
            final(self).config == old(self).config,
            final(self).is_empty(),
            final(self).dem_log@.enabled == old(self).dem_log@.enabled,
            final(self).types@ == (if flags.reset_library {
                Types::none()
            } else {
                old(self).types@
            }),
    {
        if flags.reset_library {
            self.types = Types::new();
        }
        self.gadgets = Registry::new();
        self.check_models = Registry::new();
        self.error_models = Registry::new();
        self.dem_log.reset();
        self.next_gid = 1;
        self.next_cid = 1;
        self.next_eid = 1;
        self.pending_subgraphs.remove_all();
        self.gid_to_union_index = IdMap::new();
    }
}

// ---------------------------------------------------------------------------
// Resolving the references of a part
// ---------------------------------------------------------------------------

/// A check model with its remote gadgets resolved, otherwise as before.
pub open spec fn check_model_expanded(gadgets: Map<u64, Gadget>, before: CheckModel, after: CheckModel) -> bool {
    &&& after.instance == before.instance
    &&& after.attaching_eid_vec == before.attaching_eid_vec
    &&& after.modified_remote_gadgets == before.modified_remote_gadgets
    &&& after.syndrome == before.syndrome
    &&& after.referring_eids == before.referring_eids
    &&& after.expanded_remote_gadgets matches Some(list) && expands_gadgets(
        gadgets,
        gadget_slots(before.modified_remote_gadgets@),
        before.instance.gid,
        Ok(list@),
    )
}

/// An error model with its remote check models resolved, otherwise as before.
pub open spec fn error_model_expanded(gadgets: Map<u64, Gadget>, gid: u64, before: ErrorModel, after: ErrorModel) -> bool {
    &&& after.instance == before.instance
    &&& after.modified_remote_check_models == before.modified_remote_check_models
    &&& after.expanded_remote_check_models matches Some(list) && expands_check_models(
        gadgets,
        check_model_slots(before.modified_remote_check_models@),
        gid,
        Ok(list@),
    )
}

/// The log after the references of the first `n` listed error models were resolved.
pub open spec fn log_resolved(log: DemState, eids: Seq<u64>, after: Map<u64, ErrorModel>, n: int) -> DemState
    decreases n,
{
    if n <= 0 {
        log
    } else {
        log_resolved(log, eids, after, n - 1).after_remotes_resolved(
            eids[n - 1],
            after[eids[n - 1]].expanded_remote_check_models->0@,
        )
    }
}

/// Only later entries differ, so the log of the first ones is the same.
proof fn lemma_log_same(log: DemState, eids: Seq<u64>, a: Map<u64, ErrorModel>, b: Map<u64, ErrorModel>, n: int)
    requires
        forall|i: int| 0 <= i < n ==> a[#[trigger] eids[i]] == b[eids[i]],
    ensures
        log_resolved(log, eids, a, n) == log_resolved(log, eids, b, n),
    decreases n,
{
    if n > 0 {
        lemma_log_same(log, eids, a, b, n - 1);
        assert(a[eids[n - 1]] == b[eids[n - 1]]);
    }
}

/// Resolves the remote gadgets of every check model of a part.
fn expand_check_models(part: &mut TakenSubgraph) -> (stopped: Option<Unresolved>)
    requires
        old(part).gadgets.wf(),
        old(part).check_models.wf(),
    ensures
        final(part).gids == old(part).gids,
        final(part).gadgets == old(part).gadgets,
        final(part).error_models == old(part).error_models,
        final(part).check_models.wf(),
        final(part).check_models@.dom() == old(part).check_models@.dom(),
        stopped is None ==> forall|cid: u64| #[trigger]
            old(part).check_models@.contains_key(cid) ==> check_model_expanded(
                old(part).gadgets@,
                old(part).check_models@[cid],
                final(part).check_models@[cid],
            ),
        forall|cid: u64| #[trigger]
            old(part).check_models@.contains_key(cid) ==> final(part).check_models@[cid].instance
                == old(part).check_models@[cid].instance,
        stopped matches Some(why) ==> exists|cid: u64| #[trigger]
            old(part).check_models@.contains_key(cid) && expands_gadgets(
                old(part).gadgets@,
                gadget_slots(old(part).check_models@[cid].modified_remote_gadgets@),
                old(part).check_models@[cid].instance.gid,
                Err(why),
            ),
{
    let ghost before = part.check_models@;
    let ghost ids = part.check_models.id_seq();
    let count: usize = part.check_models.len();
    proof {
        part.check_models.lemma_id_seq();
    }
    let mut r: usize = 0;
    while r < count
        invariant
            r <= count,
            count == ids.len(),
            ids == part.check_models.id_seq(),
            ids.no_duplicates(),
            forall|id: u64| #[trigger] ids.contains(id) <==> before.contains_key(id),
            before == old(part).check_models@,
            part.gids == old(part).gids,
            part.gadgets == old(part).gadgets,
            part.gadgets.wf(),
            part.error_models == old(part).error_models,
            part.check_models.wf(),
            part.check_models@.dom() == before.dom(),
            forall|k: int|
                0 <= k < r ==> check_model_expanded(
                    part.gadgets@,
                    before[#[trigger] ids[k]],
                    part.check_models@[ids[k]],
                ),
            forall|k: int| r <= k < ids.len() ==> part.check_models@[#[trigger] ids[k]] == before[ids[k]],
            forall|cid: u64| #[trigger] before.contains_key(cid) ==> part.check_models@[cid].instance == before[cid].instance,
        decreases count - r,
    {
        let cid: u64 = part.check_models.id_at(r);
        let ghost now = part.check_models@;
        assert(ids[r as int] == cid);
        assert(before.dom().contains(cid));
        let check_model = part.check_models.get(cid).unwrap();
        match expand_remote_gadgets(&part.gadgets, &check_model.modified_remote_gadgets, check_model.instance.gid) {
            Ok(list) => {
                part.check_models.get_mut(cid).expanded_remote_gadgets = Some(list);
                proof {
                    assert(part.check_models@.dom() =~= before.dom());
                    assert forall|k: int| 0 <= k < r + 1 implies check_model_expanded(
                        part.gadgets@,
                        before[#[trigger] ids[k]],
                        part.check_models@[ids[k]],
                    ) by {
                        if k < r {
                            assert(ids[k] != ids[r as int]);
                            assert(part.check_models@[ids[k]] == now[ids[k]]);
                        }
                    }
                    assert forall|k: int| r + 1 <= k < ids.len() implies part.check_models@[#[trigger] ids[k]] == before[ids[k]] by {
                        assert(ids[k] != ids[r as int]);
                    }
                }
            },
            Err(why) => {
                return Some(why);
            },
        }
        r += 1;
    }
    proof {
        assert forall|cid: u64| #[trigger] before.contains_key(cid) implies check_model_expanded(
            old(part).gadgets@,
            before[cid],
            part.check_models@[cid],
        ) by {
            let k = ids.index_of(cid);
            assert(ids.contains(cid));
            assert(ids[k] == cid);
        }
    }
    None
}

/// Resolves the remote check models of every error model of a part, and reports them
/// to the log.
fn expand_error_models_of(part: &mut TakenSubgraph, dem_log: &mut DemLog) -> (stopped: Option<Unresolved>)
    requires
        old(part).gadgets.wf(),
        old(part).check_models.wf(),
        old(part).error_models.wf(),
        old(dem_log).wf(),
        forall|eid: u64| #[trigger]
            old(part).error_models@.contains_key(eid) ==> old(part).check_models@.contains_key(
                old(part).error_models@[eid].instance.cid,
            ),
    ensures
        final(dem_log).wf(),
        final(part).gids == old(part).gids,
        final(part).gadgets == old(part).gadgets,
        final(part).check_models == old(part).check_models,
        final(part).error_models.wf(),
        final(part).error_models@.dom() == old(part).error_models@.dom(),
        stopped is None ==> {
            &&& forall|eid: u64| #[trigger]
                old(part).error_models@.contains_key(eid) ==> error_model_expanded(
                    old(part).gadgets@,
                    old(part).check_models@[old(part).error_models@[eid].instance.cid].instance.gid,
                    old(part).error_models@[eid],
                    final(part).error_models@[eid],
                )
            &&& final(dem_log)@ == log_resolved(
                old(dem_log)@,
                old(part).error_models.id_seq(),
                final(part).error_models@,
                old(part).error_models.id_seq().len() as int,
            )
        },
        stopped matches Some(why) ==> exists|eid: u64| #[trigger]
            old(part).error_models@.contains_key(eid) && expands_check_models(
                old(part).gadgets@,
                check_model_slots(old(part).error_models@[eid].modified_remote_check_models@),
                old(part).check_models@[old(part).error_models@[eid].instance.cid].instance.gid,
                Err(why),
            ),
{
    let ghost before = part.error_models@;
    let ghost log = dem_log@;
    let ghost ids = part.error_models.id_seq();
    let count: usize = part.error_models.len();
    proof {
        part.error_models.lemma_id_seq();
    }
    let mut r: usize = 0;
    while r < count
        invariant
            r <= count,
            count == ids.len(),
            ids == part.error_models.id_seq(),
            ids == old(part).error_models.id_seq(),
            ids.no_duplicates(),
            forall|id: u64| #[trigger] ids.contains(id) <==> before.contains_key(id),
            before == old(part).error_models@,
            log == old(dem_log)@,
            dem_log.wf(),
            part.gids == old(part).gids,
            part.gadgets == old(part).gadgets,
            part.gadgets.wf(),
            part.check_models == old(part).check_models,
            part.check_models.wf(),
            part.error_models.wf(),
            part.error_models@.dom() == before.dom(),
            forall|eid: u64| #[trigger] before.contains_key(eid) ==> part.check_models@.contains_key(before[eid].instance.cid),
            forall|k: int|
                0 <= k < r ==> error_model_expanded(
                    part.gadgets@,
                    part.check_models@[before[#[trigger] ids[k]].instance.cid].instance.gid,
                    before[ids[k]],
                    part.error_models@[ids[k]],
                ),
            forall|k: int| r <= k < ids.len() ==> part.error_models@[#[trigger] ids[k]] == before[ids[k]],
            dem_log@ == log_resolved(log, ids, part.error_models@, r as int),
        decreases count - r,
    {
        let eid: u64 = part.error_models.id_at(r);
        let ghost now = part.error_models@;
        assert(ids[r as int] == eid);
        assert(before.dom().contains(eid));
        let error_model = part.error_models.get(eid).unwrap();
        let gid: u64 = part.check_models.get(error_model.instance.cid).unwrap().instance.gid;
        match expand_remote_check_models(&part.gadgets, &error_model.modified_remote_check_models, gid) {
            Ok(list) => {
                dem_log.on_remotes_resolved_guarded(
                    eid,
                    list.as_slice(),
                    error_model.modified_remote_check_models.len(),
                );
                let ghost resolved = list@;
                assert(resolved.len() == check_model_slots(error_model.modified_remote_check_models@).len());
                part.error_models.get_mut(eid).expanded_remote_check_models = Some(list);
                proof {
                    assert(part.error_models@.dom() =~= before.dom());
                    assert forall|k: int| 0 <= k < r + 1 implies error_model_expanded(
                        part.gadgets@,
                        part.check_models@[before[#[trigger] ids[k]].instance.cid].instance.gid,
                        before[ids[k]],
                        part.error_models@[ids[k]],
                    ) by {
                        if k < r {
                            assert(ids[k] != ids[r as int]);
                            assert(part.error_models@[ids[k]] == now[ids[k]]);
                        }
                    }
                    assert forall|k: int| r + 1 <= k < ids.len() implies part.error_models@[#[trigger] ids[k]] == before[ids[k]] by {
                        assert(ids[k] != ids[r as int]);
                    }
                    assert forall|i: int| 0 <= i < r implies now[#[trigger] ids[i]] == part.error_models@[ids[i]] by {
                        assert(ids[i] != ids[r as int]);
                    }
                    lemma_log_same(log, ids, now, part.error_models@, r as int);
                    assert(part.error_models@[eid].expanded_remote_check_models->0@ == resolved);
                }
            },
            Err(why) => {
                return Some(why);
            },
        }
        r += 1;
    }
    proof {
        assert forall|eid: u64| #[trigger] before.contains_key(eid) implies error_model_expanded(
            old(part).gadgets@,
            old(part).check_models@[before[eid].instance.cid].instance.gid,
            before[eid],
            part.error_models@[eid],
        ) by {
            let k = ids.index_of(eid);
            assert(ids.contains(eid));
            assert(ids[k] == eid);
        }
    }
    None
}

/// Every error model of a part belongs to a check model of it.
pub open spec fn owners_present(part: TakenSubgraph) -> bool {
    forall|eid: u64| #[trigger]
        part.error_models@.contains_key(eid) ==> part.check_models@.contains_key(part.error_models@[eid].instance.cid)
}

/// Whether every error model of a part belongs to a check model of it.
pub fn owners_known(part: &TakenSubgraph) -> (yes: bool)
    requires
        part.check_models.wf(),
        part.error_models.wf(),
    ensures
        yes == owners_present(*part),
{
    let n: usize = part.error_models.len();
    let mut i: usize = 0;
    proof {
        part.error_models.lemma_id_seq();
    }
    while i < n
        invariant
            n == part.error_models.id_seq().len(),
            i <= n,
            part.check_models.wf(),
            part.error_models.wf(),
            forall|k: int|
                0 <= k < i ==> part.check_models@.contains_key(
                    part.error_models@[#[trigger] part.error_models.id_seq()[k]].instance.cid,
                ),
        decreases n - i,
    {
        let eid: u64 = part.error_models.id_at(i);
        proof {
            part.error_models.lemma_id_seq();
            assert(part.error_models.id_seq().contains(eid));
        }
        let model = part.error_models.get(eid).unwrap();
        if !part.check_models.contains_key(model.instance.cid) {
            return false;
        }
        i += 1;
    }
    proof {
        assert forall|eid: u64| #[trigger] part.error_models@.contains_key(eid) implies part.check_models@.contains_key(
            part.error_models@[eid].instance.cid,
        ) by {
            assert(part.error_models.id_seq().contains(eid));
            let k = part.error_models.id_seq().index_of(eid);
            assert(part.error_models.id_seq()[k] == eid);
        }
    }
    true
}

/// Resolves all references of a part, and reports those of its error models to the
/// log; or says what stops one of them.
pub fn batch_expand(part: &mut TakenSubgraph, dem_log: &mut DemLog) -> (stopped: Option<Unresolved>)
    requires
        old(part).gadgets.wf(),
        old(part).check_models.wf(),
        old(part).error_models.wf(),
        old(dem_log).wf(),
        owners_present(*old(part)),
    ensures
        final(dem_log).wf(),
        final(part).gids == old(part).gids,
        final(part).gadgets == old(part).gadgets,
        final(part).check_models.wf(),
        final(part).error_models.wf(),
        final(part).check_models@.dom() == old(part).check_models@.dom(),
        final(part).error_models@.dom() == old(part).error_models@.dom(),
        stopped is None ==> {
            &&& forall|cid: u64| #[trigger]
                old(part).check_models@.contains_key(cid) ==> check_model_expanded(
                    old(part).gadgets@,
                    old(part).check_models@[cid],
                    final(part).check_models@[cid],
                )
            &&& forall|eid: u64| #[trigger]
                old(part).error_models@.contains_key(eid) ==> error_model_expanded(
                    old(part).gadgets@,
                    old(part).check_models@[old(part).error_models@[eid].instance.cid].instance.gid,
                    old(part).error_models@[eid],
                    final(part).error_models@[eid],
                )
            &&& final(dem_log)@ == log_resolved(
                old(dem_log)@,
                old(part).error_models.id_seq(),
                final(part).error_models@,
                old(part).error_models.id_seq().len() as int,
            )
        },
        stopped matches Some(why) ==> {
            ||| exists|cid: u64| #[trigger]
                old(part).check_models@.contains_key(cid) && expands_gadgets(
                    old(part).gadgets@,
                    gadget_slots(old(part).check_models@[cid].modified_remote_gadgets@),
                    old(part).check_models@[cid].instance.gid,
                    Err(why),
                )
            ||| exists|eid: u64| #[trigger]
                old(part).error_models@.contains_key(eid) && expands_check_models(
                    old(part).gadgets@,
                    check_model_slots(old(part).error_models@[eid].modified_remote_check_models@),
                    old(part).check_models@[old(part).error_models@[eid].instance.cid].instance.gid,
                    Err(why),
                )
        },
{
    let ghost before = *part;
    if let Some(why) = expand_check_models(part) {
        return Some(why);
    }
    proof {
        assert forall|eid: u64| #[trigger] part.error_models@.contains_key(eid) implies part.check_models@.contains_key(
            part.error_models@[eid].instance.cid,
        ) by {
            assert(before.check_models@.dom().contains(before.error_models@[eid].instance.cid));
        }
        assert forall|eid: u64| #[trigger] before.error_models@.contains_key(eid) implies part.check_models@[before.error_models@[eid].instance.cid].instance.gid
            == before.check_models@[before.error_models@[eid].instance.cid].instance.gid by {
            assert(before.check_models@.contains_key(before.error_models@[eid].instance.cid));
        }
    }
    expand_error_models_of(part, dem_log)
}

// ---------------------------------------------------------------------------
// Numbering a part
// ---------------------------------------------------------------------------

/// An error model of a part, with its references. None if they are not resolved.
pub open spec fn part_error_model(error_models: Map<u64, ErrorModel>, eid: u64) -> Option<ErrorModelView> {
    if error_models.contains_key(eid) && error_models[eid].expanded_remote_check_models is Some {
        Some(
            ErrorModelView {
                eid,
                etype: error_models[eid].instance.etype,
                remote_check_models: error_models[eid].expanded_remote_check_models->0@,
            },
        )
    } else {
        None
    }
}

/// The first `n` listed error models of a part.
pub open spec fn part_error_models(error_models: Map<u64, ErrorModel>, eids: Seq<u64>, n: int) -> Option<Seq<ErrorModelView>>
    decreases n,
{
    if n <= 0 {
        Some(Seq::empty())
    } else {
        match (part_error_models(error_models, eids, n - 1), part_error_model(error_models, eids[n - 1])) {
            (Some(before), Some(model)) => Some(before.push(model)),
            _ => None,
        }
    }
}

/// A gadget of a part. None if something about it is not known.
pub open spec fn part_gadget(part: TakenSubgraph, types: Map<u64, CheckModelType>, gid: u64) -> Option<GadgetView> {
    if !part.gadgets@.contains_key(gid) {
        None
    } else {
        let gadget = part.gadgets@[gid];
        let bare = GadgetView {
            gid,
            gtype: gadget.instance.gtype,
            inputs: inputs_of(gadget),
            outputs: gadget.outputs@,
            check_model: None,
            error_models: Seq::empty(),
        };
        match gadget.binding_cid {
            None => Some(bare),
            Some(cid) => if part.check_models@.contains_key(cid) && part.check_models@[cid].expanded_remote_gadgets is Some
                && types.contains_key(part.check_models@[cid].instance.ctype) {
                let model = part.check_models@[cid];
                let eids = model.attaching_eid_vec@;
                match part_error_models(part.error_models@, eids, eids.len() as int) {
                    None => None,
                    Some(error_models) => Some(
                        GadgetView {
                            check_model: Some(
                                CheckModelView {
                                    cid,
                                    ctype: model.instance.ctype,
                                    remote_gadgets: model.expanded_remote_gadgets->0@,
                                    count_checks: types[model.instance.ctype].checks@.len(),
                                },
                            ),
                            error_models,
                            ..bare
                        },
                    ),
                }
            } else {
                None
            },
        }
    }
}

/// The first `n` gadgets of a part.
pub open spec fn part_gadgets(part: TakenSubgraph, types: Map<u64, CheckModelType>, n: int) -> Option<Seq<GadgetView>>
    decreases n,
{
    if n <= 0 {
        Some(Seq::empty())
    } else {
        match (part_gadgets(part, types, n - 1), part_gadget(part, types, part.gids@[n - 1])) {
            (Some(before), Some(gadget)) => Some(before.push(gadget)),
            _ => None,
        }
    }
}

proof fn lemma_part_error_models_settle(error_models: Map<u64, ErrorModel>, eids: Seq<u64>, n: int, m: int)
    requires
        n <= m,
        part_error_models(error_models, eids, n) is None,
    ensures
        part_error_models(error_models, eids, m) is None,
    decreases m - n,
{
    if n < m {
        lemma_part_error_models_settle(error_models, eids, n, m - 1);
    }
}

proof fn lemma_part_gadgets_settle(part: TakenSubgraph, types: Map<u64, CheckModelType>, n: int, m: int)
    requires
        n <= m,
        part_gadgets(part, types, n) is None,
    ensures
        part_gadgets(part, types, m) is None,
    decreases m - n,
{
    if n < m {
        lemma_part_gadgets_settle(part, types, n, m - 1);
    }
}

/// Lists the error models of a part.
fn list_error_models(error_models: &Registry<ErrorModel>, eids: &Vec<u64>) -> (models: Option<Vec<ExpandedErrorModel>>)
    requires
        error_models.wf(),
    ensures
        match part_error_models(error_models@, eids@, eids@.len() as int) {
            Some(expected) => models matches Some(list) && list@.map_values(|e: ExpandedErrorModel| error_model_view(e)) == expected,
            None => models is None,
        },
{
    let mut models: Vec<ExpandedErrorModel> = Vec::new();
    let ghost f = |e: ExpandedErrorModel| error_model_view(e);
    let mut n: usize = 0;
    assert(models@.map_values(f) =~= Seq::<ErrorModelView>::empty());
    while n < eids.len()
        invariant
            n <= eids@.len(),
            error_models.wf(),
            f == (|e: ExpandedErrorModel| error_model_view(e)),
            part_error_models(error_models@, eids@, n as int) == Some(models@.map_values(f)),
        decreases eids@.len() - n,
    {
        proof {
            if part_error_models(error_models@, eids@, n as int + 1) is None {
                lemma_part_error_models_settle(error_models@, eids@, n as int + 1, eids@.len() as int);
            }
        }
        let eid: u64 = eids[n];
        let Some(model) = error_models.get(eid) else {
            return None;
        };
        let Some(remote) = &model.expanded_remote_check_models else {
            return None;
        };
        let expanded = ExpandedErrorModel { eid, etype: model.instance.etype, remote_check_models: copy_vec(remote) };
        let ghost before = models@;
        models.push(expanded);
        proof {
            assert(error_model_view(expanded) =~= part_error_model(error_models@, eid)->0);
            assert(models@.map_values(f) =~= before.map_values(f).push(error_model_view(expanded)));
        }
        n += 1;
    }
    Some(models)
}

/// The gadgets of a part in increasing order, with what belongs to them. `None` if
/// something about them is not known.
pub fn expanded_gadgets(part: &TakenSubgraph, types: &Registry<CheckModelType>) -> (program: Option<Vec<ExpandedGadget>>)
    requires
        part.gadgets.wf(),
        part.check_models.wf(),
        part.error_models.wf(),
        types.wf(),
    ensures
        match part_gadgets(*part, types@, part.gids@.len() as int) {
            Some(expected) => program matches Some(list) && gadgets_view(list@) == expected,
            None => program is None,
        },
{
    let mut list: Vec<ExpandedGadget> = Vec::new();
    let mut n: usize = 0;
    assert(gadgets_view(list@) =~= Seq::<GadgetView>::empty());
    while n < part.gids.len()
        invariant
            n <= part.gids@.len(),
            part.gadgets.wf(),
            part.check_models.wf(),
            part.error_models.wf(),
            types.wf(),
            part_gadgets(*part, types@, n as int) == Some(gadgets_view(list@)),
        decreases part.gids@.len() - n,
    {
        proof {
            if part_gadgets(*part, types@, n as int + 1) is None {
                lemma_part_gadgets_settle(*part, types@, n as int + 1, part.gids@.len() as int);
            }
        }
        let gid: u64 = part.gids[n];
        let Some(gadget) = part.gadgets.get(gid) else {
            return None;
        };
        let mut check_model: Option<ExpandedCheckModel> = None;
        let mut error_models: Vec<ExpandedErrorModel> = Vec::new();
        assert(error_models@.map_values(|e: ExpandedErrorModel| error_model_view(e)) =~= Seq::<ErrorModelView>::empty());
        if let Some(cid) = gadget.binding_cid {
            let Some(model) = part.check_models.get(cid) else {
                return None;
            };
            let Some(remote) = &model.expanded_remote_gadgets else {
                return None;
            };
            let Some(check_model_type) = types.get(model.instance.ctype) else {
                return None;
            };
            let Some(own) = list_error_models(&part.error_models, &model.attaching_eid_vec) else {
                return None;
            };
            check_model = Some(
                ExpandedCheckModel {
                    cid,
                    ctype: model.instance.ctype,
                    remote_gadgets: copy_vec(remote),
                    count_checks: check_model_type.checks.len(),
                },
            );
            error_models = own;
        }
        let expanded = ExpandedGadget {
            gid,
            gtype: gadget.instance.gtype,
            inputs: crate::window_program::list_inputs(gadget),
            outputs: copy_vec(&gadget.outputs),
            check_model,
            error_models,
        };
        let ghost before = list@;
        list.push(expanded);
        proof {
            assert(gadget_view(expanded) =~= part_gadget(*part, types@, gid)->0);
            assert(gadgets_view(list@) =~= gadgets_view(before).push(gadget_view(expanded)));
        }
        n += 1;
    }
    Some(list)
}

proof fn lemma_part_gadgets_listed(part: TakenSubgraph, types: Map<u64, CheckModelType>, n: int, i: int)
    requires
        part_gadgets(part, types, n) is Some,
        0 <= n,
    ensures
        part_gadgets(part, types, n)->0.len() == n,
        0 <= i < n ==> part_gadget(part, types, part.gids@[i]) == Some(part_gadgets(part, types, n)->0[i]),
    decreases n,
{
    if n > 0 {
        lemma_part_gadgets_listed(part, types, n - 1, i);
    }
}

proof fn lemma_part_error_models_listed(error_models: Map<u64, ErrorModel>, eids: Seq<u64>, n: int, k: int)
    requires
        part_error_models(error_models, eids, n) is Some,
        0 <= n,
    ensures
        part_error_models(error_models, eids, n)->0.len() == n,
        0 <= k < n ==> part_error_model(error_models, eids[k]) == Some(part_error_models(error_models, eids, n)->0[k]),
    decreases n,
{
    if n > 0 {
        lemma_part_error_models_listed(error_models, eids, n - 1, k);
    }
}

/// A taken part is described gadget by gadget, as it is connected: a gadget with a check
/// model brings all checks of its type and all error models attached to the check model,
/// with the slots as they were resolved.
pub proof fn law_part_describes_its_gadgets(part: TakenSubgraph, types: Map<u64, CheckModelType>, i: int, k: int)
    requires
        part_gadgets(part, types, part.gids@.len() as int) is Some,
        0 <= i < part.gids@.len(),
        0 <= k,
    ensures
        ({
            let views = part_gadgets(part, types, part.gids@.len() as int)->0;
            let view = views[i];
            let gadget = part.gadgets@[part.gids@[i]];
            &&& views.len() == part.gids@.len()
            &&& view.gid == part.gids@[i]
            &&& view.gtype == gadget.instance.gtype
            &&& view.inputs == gadget.instance.connectors@.map_values(|c: Connector| Some(c))
            &&& view.outputs == gadget.outputs@
            &&& match gadget.binding_cid {
                None => view.check_model is None && view.error_models.len() == 0,
                Some(cid) => {
                    let model = part.check_models@[cid];
                    &&& view.check_model matches Some(cm)
                    &&& cm.cid == cid
                    &&& cm.ctype == model.instance.ctype
                    &&& cm.remote_gadgets == model.expanded_remote_gadgets->0@
                    &&& cm.count_checks == types[model.instance.ctype].checks@.len()
                    &&& view.error_models.len() == model.attaching_eid_vec@.len()
                    &&& k < model.attaching_eid_vec@.len() ==> {
                        let eid = model.attaching_eid_vec@[k];
                        &&& view.error_models[k].eid == eid
                        &&& view.error_models[k].etype == part.error_models@[eid].instance.etype
                        &&& view.error_models[k].remote_check_models
                            == part.error_models@[eid].expanded_remote_check_models->0@
                    }
                },
            }
        }),
{
    lemma_part_gadgets_listed(part, types, part.gids@.len() as int, i);
    let gadget = part.gadgets@[part.gids@[i]];
    if let Some(cid) = gadget.binding_cid {
        let eids = part.check_models@[cid].attaching_eid_vec@;
        lemma_part_error_models_listed(part.error_models@, eids, eids.len() as int, k);
    }
}

} // verus!
