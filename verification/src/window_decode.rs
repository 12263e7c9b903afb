//! Decoding a window: loading outcomes, claiming the window, and preparing the decode.
use crate::bin::{checks_view, CheckSpec};
use crate::bit_vector::{copy_of, BitVector};
use crate::collections::IdSet;
use crate::coordinator::{apply_loss_random_imputation, count_set, drew, Outcomes, ResetRequest};
use crate::detectors::{
    are_detectors, check_value, check_values_with, detector_value, expanded_as, law_detectors_depend_on_outcomes_only,
};
use crate::generator::Generator;
use crate::library::Types;
use crate::monolithic_decode::{same_but_outcomes, stored_bits};
use crate::network::{CheckModel, Gadget, GadgetState};
use crate::readouts::{compute_readouts, raw_readouts, readable};
use crate::referrals::Referrals;
use crate::registry::Registry;
use crate::remote::{
    expand_remote_gadgets, expands_gadgets, extends, first_stop, gadget_slots, law_resolved_reference_is_stable, reach_of,
    stop_at, stops, Reach, Slot, Target,
};
use crate::status::{decimal, Status, StatusCode};
use crate::window::WindowCoordinator;
use crate::window_commit::{all_flipped, claim_window, claimed, finished, same_but_syndrome};
use crate::window_explore::ExploredWindow;
use crate::window_region::{in_commit_region, in_decoder_window, region_cids};
use vstd::prelude::*;

verus! {

// ---------------------------------------------------------------------------
// Loading outcomes
// ---------------------------------------------------------------------------

/// What loading the outcomes of a gadget gives.
#[derive(Debug)]
pub struct WindowLoad {
    /// whether these are the first outcomes of the gadget
    pub first_arrival: bool,
    /// the raw readouts
    pub readouts: Vec<bool>,
    /// whether the gadget leaves decoding to others and waits for its corrected readouts
    pub waits_for_leader: bool,
}

/// The program after the outcomes of gadget `gid` were stored and, if asked to, the
/// gadget was marked ready.
pub open spec fn outcomes_set(
    before: WindowCoordinator,
    after: WindowCoordinator,
    gid: u64,
    bits: BitVector,
    ready: bool,
) -> bool {
    &&& after.config == before.config
    &&& after.types@ == before.types@
    &&& after.check_models@ == before.check_models@
    &&& after.error_models@ == before.error_models@
    &&& after.referral_state() == before.referral_state()
    &&& after.next_gid == before.next_gid
    &&& after.next_cid == before.next_cid
    &&& after.next_eid == before.next_eid
    &&& after.gadgets@.dom() == before.gadgets@.dom()
    &&& forall|g: u64| #[trigger] before.gadgets@.contains_key(g) && g != gid ==> after.gadgets@[g] == before.gadgets@[g]
    &&& same_but_outcomes(Gadget { decode_ready: ready, ..before.gadgets@[gid] }, after.gadgets@[gid])
    &&& after.gadgets@[gid].outcomes == Some(bits)
}

/// The type of a gadget.
pub open spec fn type_of(c: WindowCoordinator, gid: u64) -> crate::bin::GadgetType {
    c.types@.gadget_types[c.gadgets@[gid].instance.gtype]
}

/// The outcomes that a request brings fit the readouts of the gadget, and so do those
/// that are there.
pub open spec fn outcomes_fit(c: WindowCoordinator, request: Outcomes) -> bool {
    &&& request.mask_fits()
    &&& request.outcomes matches Some(bits) ==> bits.wf()
    &&& c.gadgets@.contains_key(request.gid) ==> {
        &&& request.outcomes matches Some(bits) ==> readable(type_of(c, request.gid).readouts@, bits.size as nat)
        &&& c.gadgets@[request.gid].outcomes matches Some(bits) ==> bits.wf() && readable(
            type_of(c, request.gid).readouts@,
            bits.size as nat,
        )
    }
}

/// The detectors of a gadget with check model `cid`: bit `i` is the natural flip of check
/// `i` and the outcomes that it reads, taken together.
pub open spec fn detectors_are(c: WindowCoordinator, gid: u64, cid: u64, bits: Seq<bool>) -> bool {
    let check_model = c.check_models@[cid];
    &&& c.types@.check_model_types.contains_key(check_model.instance.ctype)
    &&& exists|list: Vec<Option<u64>>| #[trigger]
        expands_gadgets(
            c.gadgets@,
            gadget_slots(check_model.modified_remote_gadgets@),
            check_model.instance.gid,
            Ok(list@),
        ) && are_detectors(
            c.gadgets@,
            c.gadgets@[gid],
            expanded_as(check_model, Some(list)),
            checks_view(c.types@.check_model_types[check_model.instance.ctype].checks@),
            bits,
        )
}

/// References resolve in one way.
proof fn lemma_same_expansion(
    gadgets: Map<u64, Gadget>,
    slots: Seq<Option<Slot>>,
    owner: u64,
    a: Seq<Option<u64>>,
    b: Seq<Option<u64>>,
)
    requires
        expands_gadgets(gadgets, slots, owner, Ok(a)),
        expands_gadgets(gadgets, slots, owner, Ok(b)),
    ensures
        a == b,
{
    assert forall|i: int| 0 <= i < a.len() implies a[i] == b[i] by {
        let found = reach_of(gadgets, slots, owner, i);
        assert(found == (match a[i] {
            Some(g) => Reach::To(Target::Gadget(g)),
            None => Reach::Removed,
        }));
    }
    assert(a =~= b);
}

/// Check values depend on what slots stand for, not on how that is held.
proof fn lemma_expansion_by_contents(
    gadgets: Map<u64, Gadget>,
    owner: Gadget,
    check_model: CheckModel,
    a: Vec<Option<u64>>,
    b: Vec<Option<u64>>,
    check: CheckSpec,
    n: int,
)
    requires
        a@ == b@,
    ensures
        check_value(gadgets, owner, expanded_as(check_model, Some(a)), check, n) == check_value(
            gadgets,
            owner,
            expanded_as(check_model, Some(b)),
            check,
            n,
        ),
    decreases n,
{
    if n > 0 {
        lemma_expansion_by_contents(gadgets, owner, check_model, a, b, check, n - 1);
    }
}

/// A gadget has one value of its detectors: the outcomes decide it.
pub proof fn law_detectors_are_unique(c: WindowCoordinator, gid: u64, cid: u64, a: Seq<bool>, b: Seq<bool>)
    requires
        detectors_are(c, gid, cid, a),
        detectors_are(c, gid, cid, b),
    ensures
        a == b,
{
    let model = c.check_models@[cid];
    let slots = gadget_slots(model.modified_remote_gadgets@);
    let checks = checks_view(c.types@.check_model_types[model.instance.ctype].checks@);
    let owner = model.instance.gid;
    let la = choose|list: Vec<Option<u64>>| #[trigger]
        expands_gadgets(c.gadgets@, slots, owner, Ok(list@)) && are_detectors(
            c.gadgets@,
            c.gadgets@[gid],
            expanded_as(model, Some(list)),
            checks,
            a,
        );
    let lb = choose|list: Vec<Option<u64>>| #[trigger]
        expands_gadgets(c.gadgets@, slots, owner, Ok(list@)) && are_detectors(
            c.gadgets@,
            c.gadgets@[gid],
            expanded_as(model, Some(list)),
            checks,
            b,
        );
    lemma_same_expansion(c.gadgets@, slots, owner, la@, lb@);
    assert forall|i: int| 0 <= i < checks.len() implies a[i] == b[i] by {
        lemma_expansion_by_contents(
            c.gadgets@,
            c.gadgets@[gid],
            model,
            la,
            lb,
            checks[i],
            checks[i].measurements.len() as int,
        );
        assert(detector_value(c.gadgets@, c.gadgets@[gid], expanded_as(model, Some(la)), checks, i) == Some(a[i]));
        assert(detector_value(c.gadgets@, c.gadgets@[gid], expanded_as(model, Some(lb)), checks, i) == Some(b[i]));
    }
    assert(a =~= b);
}

/// Committing a window changes no detectors: they are what the outcomes make them, before
/// and after.
pub proof fn law_detectors_survive_commits(
    before: WindowCoordinator,
    after: WindowCoordinator,
    region: Set<u64>,
    window: Set<u64>,
    leader: u64,
    flips: Seq<(u64, u64)>,
    gid: u64,
    cid: u64,
    bits: Seq<bool>,
)
    requires
        after.types@ == before.types@,
        finished(before.gadgets@, after.gadgets@, region, window, leader),
        all_flipped(before.check_models@, after.check_models@, flips),
        before.gadgets@.contains_key(gid),
        before.check_models@.contains_key(cid),
    ensures
        detectors_are(before, gid, cid, bits) ==> detectors_are(after, gid, cid, bits),
{
    if detectors_are(before, gid, cid, bits) {
        let model = before.check_models@[cid];
        let slots = gadget_slots(model.modified_remote_gadgets@);
        let checks = checks_view(before.types@.check_model_types[model.instance.ctype].checks@);
        let list = choose|list: Vec<Option<u64>>| #[trigger]
            expands_gadgets(before.gadgets@, slots, model.instance.gid, Ok(list@)) && are_detectors(
                before.gadgets@,
                before.gadgets@[gid],
                expanded_as(model, Some(list)),
                checks,
                bits,
            );
        assert(same_but_syndrome(model, after.check_models@[cid]));
        assert(extends(after.gadgets@, before.gadgets@)) by {
            assert forall|g: u64| #[trigger] before.gadgets@.contains_key(g) implies after.gadgets@.contains_key(g)
                && after.gadgets@[g].instance == before.gadgets@[g].instance && after.gadgets@[g].outputs == before.gadgets@[g].outputs by {
            }
        }
        assert(expands_gadgets(after.gadgets@, slots, model.instance.gid, Ok(list@))) by {
            assert forall|ri: int| 0 <= ri < slots.len() implies (#[trigger] reach_of(after.gadgets@, slots, model.instance.gid, ri)) == (match list@[ri] {
                Some(g) => Reach::To(Target::Gadget(g)),
                None => Reach::Removed,
            }) by {
                assert(reach_of(before.gadgets@, slots, model.instance.gid, ri) == (match list@[ri] {
                    Some(g) => Reach::To(Target::Gadget(g)),
                    None => Reach::Removed,
                }));
                law_resolved_reference_is_stable(
                    before.gadgets@,
                    after.gadgets@,
                    slots,
                    model.instance.gid,
                    ri,
                    slots.len(),
                );
            }
        }
        assert forall|i: int| 0 <= i < checks.len() implies (#[trigger] detector_value(
            after.gadgets@,
            after.gadgets@[gid],
            expanded_as(after.check_models@[cid], Some(list)),
            checks,
            i,
        )) == Some(bits[i]) by {
            assert(detector_value(before.gadgets@, before.gadgets@[gid], expanded_as(model, Some(list)), checks, i) == Some(bits[i]));
            law_detectors_depend_on_outcomes_only(
                before.gadgets@,
                after.gadgets@,
                before.gadgets@[gid],
                after.gadgets@[gid],
                expanded_as(model, Some(list)),
                checks[i],
                checks[i].measurements.len() as int,
            );
            lemma_slots_decide(
                after.gadgets@,
                after.gadgets@[gid],
                expanded_as(model, Some(list)),
                expanded_as(after.check_models@[cid], Some(list)),
                checks[i],
                checks[i].measurements.len() as int,
            );
        }
    }
}

/// Check values depend on the slots of a check model only.
proof fn lemma_slots_decide(gadgets: Map<u64, Gadget>, owner: Gadget, a: CheckModel, b: CheckModel, check: CheckSpec, n: int)
    requires
        a.expanded_remote_gadgets == b.expanded_remote_gadgets,
        a.modified_remote_gadgets == b.modified_remote_gadgets,
    ensures
        check_value(gadgets, owner, a, check, n) == check_value(gadgets, owner, b, check, n),
    decreases n,
{
    if n > 0 {
        lemma_slots_decide(gadgets, owner, a, b, check, n - 1);
    }
}

/// A generator, if there is one, that gave no bit.
pub open spec fn drew_nothing(rng: Option<(Generator, Generator)>) -> bool {
    rng matches Some((start, end)) ==> end == start
}

/// The program before and after a decode of a gadget was started, with the generator at
/// hand, if there is one, and the answer.
pub open spec fn decode_begun(
    before: WindowCoordinator,
    after: WindowCoordinator,
    request: Outcomes,
    answer: Result<WindowLoad, Status>,
    rng: Option<(Generator, Generator)>,
) -> bool {
    if !before.gadgets@.contains_key(request.gid) {
        &&& answer matches Err(status)
        &&& status.is(StatusCode::NotFound, "gid="@ + decimal(request.gid as nat))
        &&& after == before
        &&& drew_nothing(rng)
    } else if request.outcomes is None {
        &&& answer matches Err(status)
        &&& status.is(StatusCode::InvalidArgument, "missing outcomes"@)
        &&& after == before
        &&& drew_nothing(rng)
    } else {
        let submitted = before.gadgets@[request.gid].outcomes;
        &&& answer matches Ok(load)
        &&& after.gadgets@[request.gid].outcomes matches Some(bits)
        &&& outcomes_set(before, after, request.gid, bits, true)
        &&& submitted is Some ==> submitted == Some(bits) && drew_nothing(rng)
        &&& submitted is None ==> stored_bits(request, bits, rng)
        &&& load.first_arrival == (submitted is None)
        &&& load.readouts@ == raw_readouts(type_of(before, request.gid).readouts@, bits@)
        &&& load.waits_for_leader == (before.gadgets@[request.gid].is_free_hop && before.config.buffer_radius > 0)
    }
}

/// The program before and after outcomes were submitted, with the generator at hand, if
/// there is one, and the answer.
pub open spec fn outcomes_submitted(
    before: WindowCoordinator,
    after: WindowCoordinator,
    request: Outcomes,
    answer: Result<WindowLoad, Status>,
    rng: Option<(Generator, Generator)>,
) -> bool {
    if request.outcomes is None {
        &&& answer matches Err(status)
        &&& status.is(StatusCode::InvalidArgument, "missing outcomes"@)
        &&& after == before
        &&& drew_nothing(rng)
    } else if !before.gadgets@.contains_key(request.gid) {
        &&& answer matches Err(status)
        &&& status.is(StatusCode::NotFound, "gid="@ + decimal(request.gid as nat))
        &&& after == before
        &&& match request.loss_mask {
            Some(mask) => rng matches Some((start, end)) ==> drew(start, end, count_set(mask@, mask.size as int)),
            None => drew_nothing(rng),
        }
    } else {
        &&& answer matches Ok(load)
        &&& after.gadgets@[request.gid].outcomes matches Some(bits)
        &&& outcomes_set(before, after, request.gid, bits, before.gadgets@[request.gid].decode_ready)
        &&& stored_bits(request, bits, rng)
        &&& load.first_arrival == (before.gadgets@[request.gid].outcomes is None)
        &&& load.readouts@ == raw_readouts(type_of(before, request.gid).readouts@, bits@)
        &&& !load.waits_for_leader
    }
}

/// A decode of a gadget whose outcomes were submitted keeps them, whatever it brings along,
/// draws no bit, and reads the same readouts. It makes the gadget ready; the submission
/// did not.
pub proof fn law_decode_keeps_submitted_outcomes(
    start: WindowCoordinator,
    submitted: WindowCoordinator,
    begun: WindowCoordinator,
    submission: Outcomes,
    decode: Outcomes,
    first: Result<WindowLoad, Status>,
    second: Result<WindowLoad, Status>,
    first_rng: Option<(Generator, Generator)>,
    second_rng: Option<(Generator, Generator)>,
)
    requires
        outcomes_submitted(start, submitted, submission, first, first_rng),
        first is Ok,
        decode_begun(submitted, begun, decode, second, second_rng),
        decode.gid == submission.gid,
        decode.outcomes is Some,
    ensures
        second is Ok,
        submitted.gadgets@[decode.gid].outcomes is Some,
        begun.gadgets@[decode.gid].outcomes == submitted.gadgets@[decode.gid].outcomes,
        drew_nothing(second_rng),
        submitted.gadgets@[decode.gid].decode_ready == start.gadgets@[decode.gid].decode_ready,
        begun.gadgets@[decode.gid].decode_ready,
        second->Ok_0.readouts@ == first->Ok_0.readouts@,
        !second->Ok_0.first_arrival,
{
}

impl WindowCoordinator {
    /// Starts a decode: marks the gadget ready, and stores its outcomes, lost ones filled
    /// in first. Outcomes that were submitted before stay as they are, and nothing is drawn.
    pub fn begin_decode(&mut self, request: Outcomes, rng: Option<&mut Generator>) -> (answer: Result<
        WindowLoad,
        Status,
    >)
        requires
            old(self).wf(),
            outcomes_fit(*old(self), request),
        ensures
            final(self).wf(),
            decode_begun(
                *old(self),
                *final(self),
                request,
                answer,
                match rng {
                    Some(r) => Some((*r, *final(r))),
                    None => None,
                },
            ),
    {
        let ghost before = *self;
        let gid: u64 = request.gid;
        let Some(gadget) = self.gadgets.get(gid) else {
            return Err(Status::with_id(StatusCode::NotFound, "gid=", gid));
        };
        let is_free_hop = gadget.is_free_hop;
        let gtype: u64 = gadget.instance.gtype;
        let Some(mut bits) = request.outcomes else {
            return Err(Status::new(StatusCode::InvalidArgument, "missing outcomes"));
        };
        let first_arrival = gadget.outcomes.is_none();
        if first_arrival {
            if let Some(rng) = rng {
                if let Some(mask) = &request.loss_mask {
                    apply_loss_random_imputation(&mut bits, mask, rng);
                }
            }
            self.gadgets.get_mut(gid).outcomes = Some(bits);
        }
        self.gadgets.get_mut(gid).decode_ready = true;
        assert(before.types@.gadget_types.contains_key(gtype));
        let gadget_type = self.types.gadget_types.get(gtype).unwrap();
        let gadget = self.gadgets.get(gid).unwrap();
        let mut readouts: Vec<bool> = Vec::new();
        if let Some(data) = &gadget.outcomes {
            readouts = compute_readouts(gadget_type, data);
        }
        proof {
            assert(self.gadgets@.dom() =~= before.gadgets@.dom());
            assert forall|g: u64| #[trigger] self.gadgets@.contains_key(g) implies self.types@.gadget_types.contains_key(
                self.gadgets@[g].instance.gtype,
            ) by {
                assert(before.gadgets@.contains_key(g));
            }
        }
        Ok(WindowLoad { first_arrival, readouts, waits_for_leader: is_free_hop && self.config.buffer_radius > 0 })
    }

    /// Publishes the outcomes of a gadget without decoding it: its checks can be computed,
    /// but it is not ready to be committed.
    pub fn submit_outcomes(&mut self, request: Outcomes, rng: Option<&mut Generator>) -> (answer: Result<
        WindowLoad,
        Status,
    >)
        requires
            old(self).wf(),
            outcomes_fit(*old(self), request),
        ensures
            final(self).wf(),
            outcomes_submitted(
                *old(self),
                *final(self),
                request,
                answer,
                match rng {
                    Some(r) => Some((*r, *final(r))),
                    None => None,
                },
            ),
    {
        let ghost before = *self;
        let gid: u64 = request.gid;
        let Some(mut bits) = request.outcomes else {
            return Err(Status::new(StatusCode::InvalidArgument, "missing outcomes"));
        };
        if let Some(rng) = rng {
            if let Some(mask) = &request.loss_mask {
                apply_loss_random_imputation(&mut bits, mask, rng);
            }
        }
        let Some(gadget) = self.gadgets.get(gid) else {
            return Err(Status::with_id(StatusCode::NotFound, "gid=", gid));
        };
        let first_arrival = gadget.outcomes.is_none();
        let gtype: u64 = gadget.instance.gtype;
        assert(before.types@.gadget_types.contains_key(gtype));
        let readouts = compute_readouts(self.types.gadget_types.get(gtype).unwrap(), &bits);
        self.gadgets.get_mut(gid).outcomes = Some(bits);
        proof {
            assert(self.gadgets@.dom() =~= before.gadgets@.dom());
            assert forall|g: u64| #[trigger] self.gadgets@.contains_key(g) implies self.types@.gadget_types.contains_key(
                self.gadgets@[g].instance.gtype,
            ) by {
                assert(before.gadgets@.contains_key(g));
            }
        }
        Ok(WindowLoad { first_arrival, readouts, waits_for_leader: false })
    }

    /// The detectors of a gadget: the values of the checks of its check model, as soon as
    /// the outcomes that they read are there. What was decoded since makes no difference.
    /// A gadget without a check model has none. Of a check model whose type is not loaded
    /// only the stored syndrome is known. `Ok(None)` means that they are still to be
    /// waited for.
    pub fn wait_for_detectors(&self, gid: u64) -> (answer: Result<Option<BitVector>, Status>)
        requires
            self.wf(),
        ensures
            if !self.gadgets@.contains_key(gid) {
                &&& answer matches Err(status)
                &&& status.is(StatusCode::NotFound, "gid="@ + decimal(gid as nat))
            } else {
                match self.gadgets@[gid].binding_cid {
                    None => answer matches Ok(Some(bits)) && bits.wf() && bits@ == Seq::<bool>::empty(),
                    Some(cid) => if !self.check_models@.contains_key(cid) {
                        &&& answer matches Err(status)
                        &&& status.is(StatusCode::NotFound, "cid="@ + decimal(cid as nat))
                    } else if !self.types@.check_model_types.contains_key(self.check_models@[cid].instance.ctype) {
                        match self.check_models@[cid].syndrome {
                            Some(syndrome) => answer matches Ok(Some(bits)) && bits.size == syndrome.size && bits.data@
                                == syndrome.data@,
                            None => answer == Ok::<Option<BitVector>, Status>(None),
                        }
                    } else {
                        match answer {
                            Ok(Some(bits)) => bits.wf() && detectors_are(*self, gid, cid, bits@),
                            Ok(None) => forall|bits: Seq<bool>| !#[trigger] detectors_are(*self, gid, cid, bits),
                            Err(_) => false,
                        }
                    },
                }
            },
    {
        let Some(gadget) = self.gadgets.get(gid) else {
            return Err(Status::with_id(StatusCode::NotFound, "gid=", gid));
        };
        let Some(cid) = gadget.binding_cid else {
            let bits = crate::bit_vector::zeros(0);
            assert(bits@ =~= Seq::<bool>::empty());
            return Ok(Some(bits));
        };
        let Some(check_model) = self.check_models.get(cid) else {
            return Err(Status::with_id(StatusCode::NotFound, "cid=", cid));
        };
        let Some(check_model_type) = self.types.check_model_types.get(check_model.instance.ctype) else {
            return match &check_model.syndrome {
                Some(syndrome) => Ok(Some(copy_of(syndrome))),
                None => Ok(None),
            };
        };
        let ghost slots = gadget_slots(check_model.modified_remote_gadgets@);
        let ghost owner = check_model.instance.gid;
        let expanded: Option<Vec<Option<u64>>> = match expand_remote_gadgets(
            &self.gadgets,
            &check_model.modified_remote_gadgets,
            check_model.instance.gid,
        ) {
            Ok(list) => Some(list),
            Err(why) => {
                proof {
                    assert forall|bits: Seq<bool>| !#[trigger] detectors_are(*self, gid, cid, bits) by {
                        if detectors_are(*self, gid, cid, bits) {
                            let other = choose|list: Vec<Option<u64>>| #[trigger]
                                expands_gadgets(self.gadgets@, slots, owner, Ok(list@)) && are_detectors(
                                    self.gadgets@,
                                    self.gadgets@[gid],
                                    expanded_as(self.check_models@[cid], Some(list)),
                                    checks_view(check_model_type.checks@),
                                    bits,
                                );
                            let ri = choose|ri: int| #[trigger]
                                first_stop(self.gadgets@, slots, owner, ri) && why == stop_at(
                                    reach_of(self.gadgets@, slots, owner, ri),
                                    ri,
                                );
                            assert(stops(reach_of(self.gadgets@, slots, owner, ri)));
                        }
                    }
                }
                return Ok(None);
            },
        };
        let values = check_values_with(&self.gadgets, gadget, check_model, &expanded, &check_model_type.checks);
        proof {
            let list = expanded->0;
            assert(expands_gadgets(self.gadgets@, slots, owner, Ok(list@)));
            if values is None {
                assert forall|bits: Seq<bool>| !#[trigger] detectors_are(*self, gid, cid, bits) by {
                    if detectors_are(*self, gid, cid, bits) {
                        let other = choose|other: Vec<Option<u64>>| #[trigger]
                            expands_gadgets(self.gadgets@, slots, owner, Ok(other@)) && are_detectors(
                                self.gadgets@,
                                self.gadgets@[gid],
                                expanded_as(self.check_models@[cid], Some(other)),
                                checks_view(check_model_type.checks@),
                                bits,
                            );
                        lemma_same_expansion(self.gadgets@, slots, owner, list@, other@);
                        let checks = checks_view(check_model_type.checks@);
                        assert forall|i: int| 0 <= i < checks.len() implies (#[trigger] detector_value(
                            self.gadgets@,
                            self.gadgets@[gid],
                            expanded_as(*check_model, expanded),
                            checks,
                            i,
                        )) is Some by {
                            lemma_expansion_by_contents(
                                self.gadgets@,
                                self.gadgets@[gid],
                                *check_model,
                                list,
                                other,
                                checks[i],
                                checks[i].measurements.len() as int,
                            );
                            assert(detector_value(
                                self.gadgets@,
                                self.gadgets@[gid],
                                expanded_as(*check_model, Some(other)),
                                checks,
                                i,
                            ) is Some);
                        }
                    }
                }
            }
        }
        Ok(values)
    }

    /// Clears the running program, and the types if asked to. Whether the log records
    /// stays as it is.
    pub fn reset(&mut self, flags: ResetRequest)
        requires
            old(self).wf(),
        ensures
            final(self).wf(),
            final(self).config == old(self).config,
            final(self).is_empty(),
            final(self).dem_log@.enabled == old(self).dem_log@.enabled,
            final(self).types@ == (if flags.reset_library {
                Types::none()
            } else {
                old(self).types@
            }),
    {
        if flags.reset_library {
            self.types = Types::new();
        }
        self.gadgets = Registry::new();
        self.check_models = Registry::new();
        self.error_models = Registry::new();
        self.referrals = Referrals::new();
        self.dem_log.reset();
        self.next_gid = 1;
        self.next_cid = 1;
        self.next_eid = 1;
    }
}

// ---------------------------------------------------------------------------
// Claiming a window
// ---------------------------------------------------------------------------

/// What a center is to do next.
#[derive(Debug)]
pub enum CommitStep {
    /// another leader holds the center: wait until it is committed or free again
    HeldBy(u64),
    /// the center is committed: wait for its corrected readouts
    Committed,
    /// these gadgets of the window are being decoded: wait for them
    Blocked(Vec<u64>),
    /// the window is claimed: decode it
    Claimed,
}

/// Whether a gadget is being decoded.
pub open spec fn is_decoding(gadgets: Map<u64, Gadget>, gid: u64) -> bool {
    gadgets.contains_key(gid) && gadgets[gid].state is Decoding
}

/// The gadgets of a window that are being decoded.
fn decoding_gadgets(window: &IdSet, gadgets: &Registry<Gadget>) -> (blocked: Vec<u64>)
    requires
        gadgets.wf(),
    ensures
        forall|g: u64| #[trigger] blocked@.contains(g) <==> window@.contains(g) && is_decoding(gadgets@, g),
{
    let ids = window.items();
    let mut blocked: Vec<u64> = Vec::new();
    let mut i: usize = 0;
    while i < ids.len()
        invariant
            i <= ids@.len(),
            gadgets.wf(),
            forall|g: u64| #[trigger]
                blocked@.contains(g) <==> ids@.take(i as int).contains(g) && is_decoding(gadgets@, g),
        decreases ids@.len() - i,
    {
        let id: u64 = ids[i];
        let ghost before = blocked@;
        let decoding = match gadgets.get(id) {
            Some(gadget) => match gadget.state {
                GadgetState::Decoding { .. } => true,
                _ => false,
            },
            None => false,
        };
        if decoding {
            blocked.push(id);
        }
        proof {
            assert(ids@.take(i as int + 1) =~= ids@.take(i as int).push(id));
            assert forall|g: u64| #[trigger] blocked@.contains(g) <==> ids@.take(i as int + 1).contains(g) && is_decoding(
                gadgets@,
                g,
            ) by {
                let more = ids@.take(i as int).push(id);
                if before.contains(g) {
                    let k = before.index_of(g);
                    assert(blocked@[k] == g);
                    let j = ids@.take(i as int).index_of(g);
                    assert(more[j] == g);
                }
                if more.contains(g) && is_decoding(gadgets@, g) {
                    let j = more.index_of(g);
                    if j < i {
                        assert(ids@.take(i as int)[j] == g);
                        assert(ids@.take(i as int).contains(g));
                    } else {
                        assert(blocked@[before.len() as int] == id);
                    }
                }
                if blocked@.contains(g) && !before.contains(g) {
                    let k = blocked@.index_of(g);
                    if k < before.len() {
                        assert(before[k] == g);
                    }
                    assert(more[i as int] == id);
                }
            }
        }
        i += 1;
    }
    proof {
        assert(ids@.take(ids@.len() as int) =~= ids@);
        assert forall|g: u64| ids@.contains(g) <==> window@.contains(g) by {
            assert(ids@.to_set().contains(g) <==> ids@.contains(g));
        }
    }
    blocked
}

/// The window of a claim: its commit region, check models and decoder window.
pub open spec fn window_selected(
    gadgets: Map<u64, Gadget>,
    before: ExploredWindow,
    after: ExploredWindow,
    buffer_radius: int,
) -> bool {
    &&& after.center_gid == before.center_gid
    &&& after.gadgets == before.gadgets
    &&& after.center_distance == before.center_distance
    &&& after.phase == before.phase
    &&& after.frontier == before.frontier
    &&& forall|gid: u64| #[trigger]
        after.commit_region@.contains(gid) <==> in_commit_region(
            gadgets,
            before.gadgets@,
            before.center_gid,
            buffer_radius,
            gid,
        )
    &&& forall|cid: u64| #[trigger] after.committing_cids@.contains(cid) <==> region_cids(gadgets, after.commit_region@, cid)
    &&& forall|gid: u64| #[trigger]
        after.decoder_window@.contains(gid) <==> in_decoder_window(
            gadgets,
            before.gadgets@,
            after.commit_region@,
            buffer_radius,
            gid,
        )
}

/// Takes the next step towards a commit. A center that is held by another leader, or is
/// committed, has nothing to claim; a window with a gadget that is being decoded has to
/// wait; otherwise the commit region and the decoder window are selected and claimed.
pub fn commit_step(explored: &mut ExploredWindow, gadgets: &mut Registry<Gadget>, buffer_radius: usize) -> (step: CommitStep)
    requires
        old(gadgets).wf(),
        old(explored).wf(old(gadgets)@),
        buffer_radius < usize::MAX,
    ensures
        final(gadgets).wf(),
        ({
            let center = old(explored).center_gid;
            let state = old(gadgets)@[center].state;
            let free = forall|g: u64| old(explored).gadgets@.contains(g) ==> !#[trigger] is_decoding(old(gadgets)@, g);
            match step {
                CommitStep::HeldBy(leader) => {
                    &&& state == (GadgetState::Decoding { leader_gid: leader })
                    &&& leader != center
                    &&& final(gadgets)@ == old(gadgets)@
                    &&& *final(explored) == *old(explored)
                },
                CommitStep::Committed => {
                    &&& state == GadgetState::Committed
                    &&& final(gadgets)@ == old(gadgets)@
                    &&& *final(explored) == *old(explored)
                },
                CommitStep::Blocked(blocked) => {
                    &&& state == GadgetState::Uncommitted || state == (GadgetState::Decoding { leader_gid: center })
                    &&& !free
                    &&& forall|g: u64| #[trigger]
                        blocked@.contains(g) <==> old(explored).gadgets@.contains(g) && is_decoding(old(gadgets)@, g)
                    &&& final(gadgets)@ == old(gadgets)@
                    &&& *final(explored) == *old(explored)
                },
                CommitStep::Claimed => {
                    &&& state == GadgetState::Uncommitted
                    &&& free
                    &&& window_selected(old(gadgets)@, *old(explored), *final(explored), buffer_radius as int)
                    &&& final(explored).commit_region@.subset_of(final(explored).decoder_window@)
                    &&& final(explored).decoder_window@.subset_of(final(explored).gadgets@)
                    &&& claimed(
                        old(gadgets)@,
                        final(gadgets)@,
                        final(explored).commit_region@,
                        final(explored).decoder_window@,
                        center,
                    )
                },
            }
        }),
{
    let center: u64 = explored.center_gid;
    assert(gadgets@.contains_key(center));
    let state = gadgets.get(center).unwrap().state;
    match state {
        GadgetState::Decoding { leader_gid } => {
            if leader_gid != center {
                return CommitStep::HeldBy(leader_gid);
            }
        },
        GadgetState::Committed => {
            return CommitStep::Committed;
        },
        GadgetState::Uncommitted => {},
    }
    let blocked = decoding_gadgets(&explored.gadgets, gadgets);
    if blocked.len() > 0 {
        assert(blocked@.contains(blocked@[0]));
        return CommitStep::Blocked(blocked);
    }
    proof {
        assert forall|g: u64| explored.gadgets@.contains(g) implies !#[trigger] is_decoding(gadgets@, g) by {
            assert(!blocked@.contains(g));
        }
        assert(explored.gadgets@.contains(center));
        assert(!is_decoding(gadgets@, center));
    }
    explored.select_commit_region(gadgets, buffer_radius);
    explored.shrink_window(gadgets, buffer_radius);
    claim_window(gadgets, &explored.commit_region, &explored.decoder_window, center);
    CommitStep::Claimed
}

/// While a window is claimed, another center whose window shares a gadget with it that
/// was free cannot claim its own: that gadget blocks it.
pub proof fn law_overlapping_windows_wait(
    before: Map<u64, Gadget>,
    during: Map<u64, Gadget>,
    region: Set<u64>,
    window: Set<u64>,
    leader: u64,
    other: Set<u64>,
    g: u64,
)
    requires
        claimed(before, during, region, window, leader),
        before.contains_key(g),
        before[g].state == GadgetState::Uncommitted,
        window.contains(g),
        other.contains(g),
    ensures
        !(forall|h: u64| other.contains(h) ==> !#[trigger] is_decoding(during, h)),
{
    assert(during.dom().contains(g));
    assert(is_decoding(during, g));
}

// ---------------------------------------------------------------------------
// Waiting for a claimed window
// ---------------------------------------------------------------------------

/// Whether a gadget has its outcomes and was marked ready.
pub open spec fn gadget_ready(gadget: Gadget) -> bool {
    gadget.outcomes is Some && gadget.decode_ready
}

/// The gadgets of a window that are not ready yet. `None` if a gadget is gone.
pub fn unready_gadgets(window: &IdSet, gadgets: &Registry<Gadget>) -> (waiting: Option<Vec<u64>>)
    requires
        gadgets.wf(),
    ensures
        waiting is Some <==> forall|g: u64| #[trigger] window@.contains(g) ==> gadgets@.contains_key(g),
        waiting matches Some(list) ==> forall|g: u64| #[trigger]
            list@.contains(g) <==> window@.contains(g) && !gadget_ready(gadgets@[g]),
{
    let ids = window.items();
    let mut list: Vec<u64> = Vec::new();
    let mut i: usize = 0;
    proof {
        assert forall|g: u64| ids@.contains(g) <==> window@.contains(g) by {
            assert(ids@.to_set().contains(g) <==> ids@.contains(g));
        }
    }
    while i < ids.len()
        invariant
            i <= ids@.len(),
            gadgets.wf(),
            forall|g: u64| ids@.contains(g) <==> window@.contains(g),
            forall|k: int| 0 <= k < i ==> gadgets@.contains_key(#[trigger] ids@[k]),
            forall|g: u64| #[trigger] list@.contains(g) <==> ids@.take(i as int).contains(g) && !gadget_ready(gadgets@[g]),
        decreases ids@.len() - i,
    {
        let id: u64 = ids[i];
        let ghost before = list@;
        let Some(gadget) = gadgets.get(id) else {
            assert(ids@.contains(id));
            return None;
        };
        if gadget.outcomes.is_none() || !gadget.decode_ready {
            list.push(id);
        }
        proof {
            let part = ids@.take(i as int);
            let more = part.push(id);
            assert(ids@.take(i as int + 1) =~= more);
            assert forall|g: u64| #[trigger] list@.contains(g) <==> more.contains(g) && !gadget_ready(gadgets@[g]) by {
                if before.contains(g) {
                    let k = before.index_of(g);
                    assert(list@[k] == g);
                    let j = part.index_of(g);
                    assert(more[j] == g);
                }
                if more.contains(g) && !gadget_ready(gadgets@[g]) {
                    let j = more.index_of(g);
                    if j < i {
                        assert(part[j] == g);
                        assert(part.contains(g));
                    } else {
                        assert(list@[before.len() as int] == id);
                    }
                }
                if list@.contains(g) && !before.contains(g) {
                    let k = list@.index_of(g);
                    if k < before.len() {
                        assert(before[k] == g);
                    }
                    assert(more[i as int] == id);
                }
            }
        }
        i += 1;
    }
    proof {
        assert(ids@.take(ids@.len() as int) =~= ids@);
        assert forall|g: u64| #[trigger] window@.contains(g) implies gadgets@.contains_key(g) by {
            assert(ids@.contains(g));
            let k = ids@.index_of(g);
            assert(gadgets@.contains_key(ids@[k]));
        }
    }
    Some(list)
}

/// The check models that a claim commits are those bound to gadgets of its commit region.
pub proof fn law_committing_check_models_are_bound_to_the_region(
    gadgets: Map<u64, Gadget>,
    before: ExploredWindow,
    after: ExploredWindow,
    buffer_radius: int,
    cid: u64,
)
    requires
        window_selected(gadgets, before, after, buffer_radius),
    ensures
        after.committing_cids@.contains(cid) <==> exists|gid: u64| #[trigger]
            after.commit_region@.contains(gid) && gadgets[gid].binding_cid == Some(cid),
        forall|gid: u64| #[trigger]
            after.commit_region@.contains(gid) <==> in_commit_region(
                gadgets,
                before.gadgets@,
                before.center_gid,
                buffer_radius,
                gid,
            ),
        forall|gid: u64| #[trigger]
            after.decoder_window@.contains(gid) <==> in_decoder_window(
                gadgets,
                before.gadgets@,
                after.commit_region@,
                buffer_radius,
                gid,
            ),
        after.center_gid == before.center_gid,
{
    assert(after.committing_cids@.contains(cid) <==> region_cids(gadgets, after.commit_region@, cid));
}

} // verus!
