//! Checks of requests before they are executed: a request that breaks the rules of the
//! instruction set is not executed at all.
use crate::bin::{self, errors_view, Create, Error, ErrorModelType, Instruction, RemoteCheckModel, WILDCARD};
use crate::bit_vector::{byte_count, BitVector};
use crate::coordinator::Outcomes;
use crate::dem::{effective_errors, effective_errors_spec, modifier_fits};
use crate::dem_log::{registered, PendingSpec};
use crate::hypergraph::check_modifier_fits;
use crate::monolithic::{check_model_reroutes_fit, gadget_reroutes_fit, recordable, MonolithicCoordinator};
use crate::network::Gadget;
use crate::program::{can_connect, has_free_id};
use crate::readouts::{can_read, readable};
use crate::registry::Registry;
use crate::remote::{
    check_model_slots, check_model_slots_of, modified_check_models_spec, modified_remote_check_models, referral_of,
    referrals_valid, resolve_remote_check_model_gid, Referral,
};
use crate::status::Status;
use crate::window::WindowCoordinator;
use crate::window_decode::outcomes_fit;
use vstd::prelude::*;

verus! {

// ---------------------------------------------------------------------------
// Parts of requests
// ---------------------------------------------------------------------------

/// Whether some id from the counter on is not in use.
pub fn has_unused_id<V>(next: u64, taken: &Registry<V>) -> (yes: bool)
    ensures
        yes == has_free_id(next, taken@),
{
    let mut id: u64 = next;
    while id < u64::MAX
        invariant
            next <= id,
            forall|k: u64| next <= k < id ==> #[trigger] taken@.contains_key(k),
        decreases u64::MAX - id,
    {
        if !taken.contains_key(id) {
            return true;
        }
        id += 1;
    }
    false
}

/// Whether the bytes hold exactly the bits.
pub fn is_packed(bits: &BitVector) -> (yes: bool)
    ensures
        yes == bits.wf(),
{
    if bits.size > usize::MAX as u64 {
        return false;
    }
    let mut bytes: u64 = bits.size / 8;
    if bits.size % 8 != 0 {
        bytes += 1;
    }
    assert(bytes == byte_count(bits.size as int));
    bits.data.len() as u64 == bytes
}

/// Whether the overrides of a check model name slots that a list can have.
pub fn gadget_reroutes_ok(request: &bin::CheckModel) -> (yes: bool)
    ensures
        yes == gadget_reroutes_fit(*request),
{
    let Some(modifier) = &request.modifier else {
        return true;
    };
    let mut i: usize = 0;
    while i < modifier.reroute_remote_gadgets.len()
        invariant
            i <= modifier.reroute_remote_gadgets@.len(),
            request.modifier == Some(*modifier),
            forall|k: int|
                0 <= k < i ==> (#[trigger] modifier.reroute_remote_gadgets@[k]).remote_gadget_index < usize::MAX,
        decreases modifier.reroute_remote_gadgets@.len() - i,
    {
        if modifier.reroute_remote_gadgets[i].remote_gadget_index >= usize::MAX as u64 {
            return false;
        }
        i += 1;
    }
    true
}

/// Whether the overrides of an error model name slots that a list can have.
pub fn check_model_reroutes_ok(request: &bin::ErrorModel) -> (yes: bool)
    ensures
        yes == check_model_reroutes_fit(*request),
{
    let Some(modifier) = &request.modifier else {
        return true;
    };
    let mut i: usize = 0;
    while i < modifier.reroute_remote_check_models.len()
        invariant
            i <= modifier.reroute_remote_check_models@.len(),
            request.modifier == Some(*modifier),
            forall|k: int|
                0 <= k < i ==> (#[trigger] modifier.reroute_remote_check_models@[k]).remote_check_model_index < usize::MAX,
        decreases modifier.reroute_remote_check_models@.len() - i,
    {
        if modifier.reroute_remote_check_models[i].remote_check_model_index >= usize::MAX as u64 {
            return false;
        }
        i += 1;
    }
    true
}

/// Whether no slot is invalid.
pub fn referrals_ok(gadgets: &Registry<Gadget>, slots: &Vec<Option<RemoteCheckModel>>, owner: u64) -> (yes: bool)
    requires
        gadgets.wf(),
    ensures
        yes == referrals_valid(gadgets@, check_model_slots(slots@), owner),
{
    let list = check_model_slots_of(slots);
    let mut ri: usize = 0;
    while ri < list.len()
        invariant
            ri <= list@.len(),
            gadgets.wf(),
            list@ == check_model_slots(slots@),
            forall|k: int| 0 <= k < ri ==> !(#[trigger] referral_of(gadgets@, list@, owner, k) is Fault),
        decreases list@.len() - ri,
    {
        if let Referral::Fault = resolve_remote_check_model_gid(gadgets, &list, owner, ri) {
            assert(referral_of(gadgets@, list@, owner, ri as int) is Fault);
            return false;
        }
        ri += 1;
    }
    true
}

/// The detectors that a mechanism would name are machine words.
pub open spec fn error_fits(model: PendingSpec, error: bin::ErrorSpec) -> bool {
    model.survives(error) ==> forall|k: int|
        0 <= k < error.checks.len() ==> ((#[trigger] error.checks[k]).remote_check_model matches Some(ri)
            ==> error.checks[k].check_index + model.check_bias[ri as int]->0 <= u64::MAX)
}

/// Whether the detectors that a mechanism would name are machine words.
fn error_ok(error: &Error, slots: &Vec<Option<RemoteCheckModel>>, Ghost(model): Ghost<PendingSpec>) -> (yes: bool)
    requires
        model.check_bias == registered(0, 0, 0, Seq::empty(), slots@).check_bias,
    ensures
        yes == error_fits(model, error@),
{
    if error.probability.is_non_positive() {
        return true;
    }
    let mut fits = true;
    let mut k: usize = 0;
    while k < error.checks.len()
        invariant
            k <= error.checks@.len(),
            model.check_bias == registered(0, 0, 0, Seq::empty(), slots@).check_bias,
            forall|j: int| 0 <= j < k ==> !model.slot_dead(#[trigger] error@.checks[j]),
            fits == (forall|j: int|
                0 <= j < k ==> ((#[trigger] error@.checks[j]).remote_check_model matches Some(ri)
                    ==> error@.checks[j].check_index + model.check_bias[ri as int]->0 <= u64::MAX)),
        decreases error.checks@.len() - k,
    {
        let check = error.checks[k];
        if let Some(ri) = check.remote_check_model {
            assert(model.check_bias.len() == slots@.len());
            if ri >= slots.len() as u64 {
                assert(model.slot_dead(error@.checks[k as int]));
                return true;
            }
            match slots[ri as usize] {
                None => {
                    assert(model.check_bias[ri as int] is None);
                    assert(model.slot_dead(error@.checks[k as int]));
                    return true;
                },
                Some(slot) => {
                    assert(model.check_bias[ri as int] == Some(slot.check_bias));
                    if check.check_index > u64::MAX - slot.check_bias {
                        fits = false;
                    }
                },
            }
        }
        assert(error@.checks[k as int] == check);
        k += 1;
    }
    fits
}

/// Whether the mechanisms of an error model can be recorded.
pub fn can_record(request: &bin::ErrorModel, error_model_type: &ErrorModelType) -> (yes: bool)
    requires
        check_model_reroutes_fit(*request),
    ensures
        forall|gid: u64, eid: u64| yes == #[trigger] recordable(gid, eid, *request, *error_model_type),
{
    if !check_modifier_fits(error_model_type.errors.len(), request) {
        return false;
    }
    let errors = effective_errors(error_model_type, request);
    let slots = modified_remote_check_models(&error_model_type.remote_check_models, &request.modifier);
    let ghost model = registered(0, 0, request.cid, errors_view(errors@), slots@);
    let mut i: usize = 0;
    while i < errors.len()
        invariant
            i <= errors@.len(),
            model == registered(0, 0, request.cid, errors_view(errors@), slots@),
            modifier_fits(error_model_type.errors@.len(), *request),
            errors_view(errors@) == effective_errors_spec(errors_view(error_model_type.errors@), *request),
            slots@ == modified_check_models_spec(error_model_type.remote_check_models@, request.modifier),
            forall|j: int| 0 <= j < i ==> error_fits(model, #[trigger] model.errors[j]),
        decreases errors@.len() - i,
    {
        assert(model.errors[i as int] == errors@[i as int]@);
        if !error_ok(&errors[i], &slots, Ghost(model)) {
            proof {
                assert forall|gid: u64, eid: u64| !#[trigger] recordable(gid, eid, *request, *error_model_type) by {
                    let other = registered(gid, eid, request.cid, errors_view(errors@), slots@);
                    lemma_same_fit(model, other);
                    assert(!error_fits(other, other.errors[i as int]));
                    if other.indices_fit() {
                        lemma_indices_fit(other);
                    }
                }
            }
            return false;
        }
        i += 1;
    }
    proof {
        assert forall|gid: u64, eid: u64| #[trigger] recordable(gid, eid, *request, *error_model_type) by {
            let other = registered(gid, eid, request.cid, errors_view(errors@), slots@);
            lemma_same_fit(model, other);
            lemma_indices_fit(other);
            assert forall|j: int| 0 <= j < other.errors.len() implies error_fits(other, #[trigger] other.errors[j]) by {
                assert(error_fits(model, model.errors[j]));
            }
        }
    }
    true
}

/// Whether detector indices fit does not depend on the ids of an error model.
proof fn lemma_same_fit(a: PendingSpec, b: PendingSpec)
    requires
        a.errors == b.errors,
        a.check_bias == b.check_bias,
    ensures
        forall|j: int| 0 <= j < a.errors.len() ==> #[trigger] error_fits(a, a.errors[j]) == error_fits(b, b.errors[j]),
{
    assert forall|j: int| 0 <= j < a.errors.len() implies #[trigger] error_fits(a, a.errors[j]) == error_fits(b, b.errors[j]) by {
        let error = a.errors[j];
        assert(forall|k: int| 0 <= k < error.checks.len() ==> a.slot_dead(#[trigger] error.checks[k]) == b.slot_dead(error.checks[k]));
        assert(a.references_dead_slot(error) == b.references_dead_slot(error));
    }
}

/// Detector indices fit if those of every mechanism do.
proof fn lemma_indices_fit(model: PendingSpec)
    ensures
        model.indices_fit() <==> forall|j: int| 0 <= j < model.errors.len() ==> error_fits(model, #[trigger] model.errors[j]),
{
    if forall|j: int| 0 <= j < model.errors.len() ==> error_fits(model, #[trigger] model.errors[j]) {
        assert forall|i: int, k: int|
            0 <= i < model.errors.len() && model.survives(model.errors[i]) && 0 <= k < model.errors[i].checks.len() implies ((
        #[trigger] model.errors[i].checks[k]).remote_check_model matches Some(ri) ==> model.errors[i].checks[k].check_index
            + model.check_bias[ri as int]->0 <= u64::MAX) by {
            assert(error_fits(model, model.errors[i]));
        }
    }
    if model.indices_fit() {
        assert forall|j: int| 0 <= j < model.errors.len() implies error_fits(model, #[trigger] model.errors[j]) by {
            let error = model.errors[j];
            if model.survives(error) {
                assert forall|k: int| 0 <= k < error.checks.len() implies ((#[trigger] error.checks[k]).remote_check_model matches Some(
                    ri,
                ) ==> error.checks[k].check_index + model.check_bias[ri as int]->0 <= u64::MAX) by {
                    assert(model.errors[j].checks[k] == error.checks[k]);
                }
            }
        }
    }
}

// ---------------------------------------------------------------------------
// Monolithic coordinator
// ---------------------------------------------------------------------------

impl MonolithicCoordinator {
    /// Whether an instruction is well formed.
    pub fn accepts(&self, instruction: &Instruction) -> (yes: bool)
        requires
            self.wf(),
        ensures
            yes == self.instruction_valid(*instruction),
    {
        match &instruction.create {
            Some(Create::Gadget(request)) => {
                if request.gid == 0 && !has_unused_id(self.next_gid, &self.gadgets) {
                    return false;
                }
                match self.types.gadget_types.get(request.gtype) {
                    Some(gadget_type) => request.connectors.len() == gadget_type.inputs.len() && can_connect(
                        &self.gadgets,
                        &request.connectors,
                    ),
                    None => true,
                }
            },
            Some(Create::CheckModel(request)) => {
                if (request.cid == 0 && !has_unused_id(self.next_cid, &self.check_models)) || !gadget_reroutes_ok(request) {
                    return false;
                }
                match (self.types.check_model_types.get(request.ctype), self.gadgets.get(request.gid)) {
                    (Some(check_model_type), Some(gadget)) => (check_model_type.gtype == WILDCARD || check_model_type.gtype
                        == gadget.instance.gtype) && gadget.binding_cid.is_none(),
                    _ => true,
                }
            },
            Some(Create::ErrorModel(request)) => {
                if (request.eid == 0 && !has_unused_id(self.next_eid, &self.error_models)) || !check_model_reroutes_ok(
                    request,
                ) {
                    return false;
                }
                match (self.types.error_model_types.get(request.etype), self.check_models.get(request.cid)) {
                    (Some(error_model_type), Some(check_model)) => {
                        if error_model_type.ctype != WILDCARD && error_model_type.ctype != check_model.instance.ctype {
                            return false;
                        }
                        if !self.dem_log.is_enabled() {
                            return true;
                        }
                        let records = can_record(request, error_model_type);
                        assert(recordable(check_model.instance.gid, 0, *request, *error_model_type) == records);
                        records
                    },
                    _ => true,
                }
            },
            None => true,
        }
    }

    /// Executes an instruction if it is well formed; else nothing happens.
    pub fn try_execute(&mut self, instruction: Instruction) -> (answer: Option<Result<u64, Status>>)
        requires
            old(self).wf(),
        ensures
            final(self).wf(),
            answer is Some == old(self).instruction_valid(instruction),
            answer is None ==> *final(self) == *old(self),
            answer matches Some(result) ==> Self::executed(*old(self), *final(self), instruction, result),
    {
        if self.accepts(&instruction) {
            Some(self.execute(instruction))
        } else {
            None
        }
    }

    /// Whether the outcomes of a request can be stored.
    pub fn accepts_outcomes(&self, request: &Outcomes) -> (yes: bool)
        requires
            self.wf(),
        ensures
            yes == (request.mask_fits() && (request.outcomes matches Some(bits) ==> bits.wf() && (self.gadgets@.contains_key(
                request.gid,
            ) ==> readable(
                self.types@.gadget_types[self.gadgets@[request.gid].instance.gtype].readouts@,
                bits.size as nat,
            )))),
    {
        let Some(bits) = &request.outcomes else {
            return true;
        };
        if !is_packed(bits) {
            return false;
        }
        if let Some(mask) = &request.loss_mask {
            if !is_packed(mask) || bits.size != mask.size {
                return false;
            }
        }
        match self.gadgets.get(request.gid) {
            Some(gadget) => {
                assert(self.types@.gadget_types.contains_key(self.gadgets@[request.gid].instance.gtype));
                can_read(self.types.gadget_types.get(gadget.instance.gtype).unwrap(), bits.size)
            },
            None => true,
        }
    }
}

// ---------------------------------------------------------------------------
// Window coordinator
// ---------------------------------------------------------------------------

impl WindowCoordinator {
    /// Whether an instruction is well formed.
    pub fn accepts(&self, instruction: &Instruction) -> (yes: bool)
        requires
            self.wf(),
        ensures
            yes == self.instruction_valid(*instruction),
    {
        match &instruction.create {
            Some(Create::Gadget(request)) => {
                if request.gid == 0 && !has_unused_id(self.next_gid, &self.gadgets) {
                    return false;
                }
                match self.types.gadget_types.get(request.gtype) {
                    Some(gadget_type) => request.connectors.len() == gadget_type.inputs.len() && can_connect(
                        &self.gadgets,
                        &request.connectors,
                    ),
                    None => true,
                }
            },
            Some(Create::CheckModel(request)) => {
                if (request.cid == 0 && !has_unused_id(self.next_cid, &self.check_models)) || !gadget_reroutes_ok(request) {
                    return false;
                }
                match (self.types.check_model_types.get(request.ctype), self.gadgets.get(request.gid)) {
                    (Some(check_model_type), Some(gadget)) => (check_model_type.gtype == WILDCARD || check_model_type.gtype
                        == gadget.instance.gtype) && gadget.binding_cid.is_none(),
                    _ => true,
                }
            },
            Some(Create::ErrorModel(request)) => {
                if (request.eid == 0 && !has_unused_id(self.next_eid, &self.error_models)) || !check_model_reroutes_ok(
                    request,
                ) {
                    return false;
                }
                match (self.types.error_model_types.get(request.etype), self.check_models.get(request.cid)) {
                    (Some(error_model_type), Some(check_model)) => {
                        if error_model_type.ctype != WILDCARD && error_model_type.ctype != check_model.instance.ctype {
                            return false;
                        }
                        let slots = modified_remote_check_models(&error_model_type.remote_check_models, &request.modifier);
                        if !referrals_ok(&self.gadgets, &slots, check_model.instance.gid) {
                            return false;
                        }
                        if !self.dem_log.is_enabled() {
                            return true;
                        }
                        let records = can_record(request, error_model_type);
                        assert(recordable(check_model.instance.gid, 0, *request, *error_model_type) == records);
                        records
                    },
                    _ => true,
                }
            },
            None => true,
        }
    }

    /// Executes an instruction if it is well formed; else nothing happens.
    pub fn try_execute(&mut self, instruction: Instruction) -> (answer: Option<Result<u64, Status>>)
        requires
            old(self).wf(),
        ensures
            final(self).wf(),
            answer is Some == old(self).instruction_valid(instruction),
            answer is None ==> *final(self) == *old(self),
            answer matches Some(result) ==> Self::executed(*old(self), *final(self), instruction, result),
    {
        if self.accepts(&instruction) {
            Some(self.execute(instruction))
        } else {
            None
        }
    }

    /// Whether the outcomes of a request, and those that its gadget has, can be read.
    pub fn accepts_outcomes(&self, request: &Outcomes) -> (yes: bool)
        requires
            self.wf(),
        ensures
            yes == outcomes_fit(*self, *request),
    {
        if let Some(bits) = &request.outcomes {
            if !is_packed(bits) {
                return false;
            }
            if let Some(mask) = &request.loss_mask {
                if !is_packed(mask) || bits.size != mask.size {
                    return false;
                }
            }
        }
        let Some(gadget) = self.gadgets.get(request.gid) else {
            return true;
        };
        assert(self.types@.gadget_types.contains_key(self.gadgets@[request.gid].instance.gtype));
        let gadget_type = self.types.gadget_types.get(gadget.instance.gtype).unwrap();
        if let Some(bits) = &request.outcomes {
            if !can_read(gadget_type, bits.size) {
                return false;
            }
        }
        match &gadget.outcomes {
            Some(bits) => is_packed(bits) && can_read(gadget_type, bits.size),
            None => true,
        }
    }
}

} // verus!
