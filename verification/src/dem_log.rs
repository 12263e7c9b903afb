//! The log of detector-error-model increments.
use crate::bin::{errors_view, Error, ErrorSpec, RemoteCheck, RemoteCheckModel};
use crate::collections::IdSet;
use crate::dem::{edges_view, DemDetectorGroup, DemDrain, DemEdge, DemEdgeSpec, DemPrediction};
use vstd::prelude::*;

verus! {

/// The value of an error model that waits for its remote slots.
#[verifier::ext_equal]
pub struct PendingSpec {
    pub gid: u64,
    pub eid: u64,
    pub owning_cid: u64,
    /// the mechanisms, probabilities of the instance folded in
    pub errors: Seq<ErrorSpec>,
    /// the check bias of each remote slot; none if the slot was removed
    pub check_bias: Seq<Option<u64>>,
    /// the check model that each remote slot resolved to
    pub resolved: Seq<Option<u64>>,
}

impl PendingSpec {
    /// Whether a check refers to a slot that was removed or never existed.
    pub open spec fn slot_dead(self, check: RemoteCheck) -> bool {
        &&& check.remote_check_model is Some
        &&& !(check.remote_check_model->0 < self.check_bias.len()
            && self.check_bias[check.remote_check_model->0 as int] is Some)
    }

    /// Whether a mechanism refers to a dead slot; such a mechanism never lands.
    pub open spec fn references_dead_slot(self, error: ErrorSpec) -> bool {
        exists|k: int| 0 <= k < error.checks.len() && self.slot_dead(#[trigger] error.checks[k])
    }

    /// Whether a mechanism can become an edge.
    pub open spec fn survives(self, error: ErrorSpec) -> bool {
        !error.probability.non_positive() && !self.references_dead_slot(error)
    }

    /// Whether a check waits for nothing.
    pub open spec fn check_ready(self, check: RemoteCheck, known: Set<u64>) -> bool {
        check.remote_check_model matches Some(ri) ==> (self.resolved[ri as int] is Some && known.contains(
            self.resolved[ri as int]->0,
        ))
    }

    /// Whether every slot of a surviving mechanism is resolved to a known check model.
    pub open spec fn resolvable(self, known: Set<u64>) -> bool {
        forall|i: int, k: int|
            0 <= i < self.errors.len() && self.survives(self.errors[i]) && 0 <= k < self.errors[i].checks.len()
                ==> self.check_ready(#[trigger] self.errors[i].checks[k], known)
    }

    /// The detector of a check.
    pub open spec fn detector_of(self, check: RemoteCheck) -> (u64, u64) {
        match check.remote_check_model {
            Some(ri) => (
                self.resolved[ri as int]->0,
                (check.check_index + self.check_bias[ri as int]->0) as u64,
            ),
            None => (self.owning_cid, check.check_index),
        }
    }

    /// The edge of mechanism `i`.
    pub open spec fn edge_of(self, i: int) -> DemEdgeSpec {
        DemEdgeSpec {
            gid: self.gid,
            eid: self.eid,
            error_index: i as u64,
            detectors: self.errors[i].checks.map_values(|c: RemoteCheck| self.detector_of(c)),
            probability: self.errors[i].probability,
        }
    }

    /// The edges of the first `n` mechanisms: one for each that survives and has a
    /// detector.
    pub open spec fn edges_upto(self, n: int) -> Seq<DemEdgeSpec>
        decreases n,
    {
        if n <= 0 {
            Seq::empty()
        } else if self.survives(self.errors[n - 1]) && self.errors[n - 1].checks.len() > 0 {
            self.edges_upto(n - 1).push(self.edge_of(n - 1))
        } else {
            self.edges_upto(n - 1)
        }
    }

    /// All edges of the error model.
    pub open spec fn edges(self) -> Seq<DemEdgeSpec> {
        self.edges_upto(self.errors.len() as int)
    }

    /// Detector indices fit the machine word.
    pub open spec fn indices_fit(self) -> bool {
        forall|i: int, k: int|
            0 <= i < self.errors.len() && self.survives(self.errors[i]) && 0 <= k < self.errors[i].checks.len()
                ==> ((#[trigger] self.errors[i].checks[k]).remote_check_model matches Some(ri) ==> self.errors[i].checks[k].check_index
                + self.check_bias[ri as int]->0 <= u64::MAX)
    }

    /// There is one resolution per slot, and indices fit.
    pub open spec fn wf(self) -> bool {
        &&& self.resolved.len() == self.check_bias.len()
        &&& self.indices_fit()
    }
}

/// The edges of the error models that are ready, in arrival order.
pub open spec fn ready_edges(pending: Seq<PendingSpec>, known: Set<u64>) -> Seq<DemEdgeSpec>
    decreases pending.len(),
{
    if pending.len() == 0 {
        Seq::empty()
    } else {
        ready_edges(pending.drop_last(), known) + (if pending.last().resolvable(known) {
            pending.last().edges()
        } else {
            Seq::empty()
        })
    }
}

/// The error models that are not ready, in arrival order.
pub open spec fn waiting(pending: Seq<PendingSpec>, known: Set<u64>) -> Seq<PendingSpec>
    decreases pending.len(),
{
    if pending.len() == 0 {
        Seq::empty()
    } else if pending.last().resolvable(known) {
        waiting(pending.drop_last(), known)
    } else {
        waiting(pending.drop_last(), known).push(pending.last())
    }
}

/// Writes one resolved slot into an error model with the given id.
pub open spec fn with_slot(model: PendingSpec, eid: u64, ri: int, cid: u64) -> PendingSpec {
    if model.eid == eid && ri < model.resolved.len() {
        PendingSpec { resolved: model.resolved.update(ri, Some(cid)), ..model }
    } else {
        model
    }
}

/// Writes the resolved slots of a batch into an error model with the given id;
/// entries without a value leave their slot as it is.
pub open spec fn with_slots(model: PendingSpec, eid: u64, batch: Seq<Option<u64>>) -> PendingSpec {
    if model.eid == eid {
        PendingSpec {
            resolved: Seq::new(
                model.resolved.len(),
                |i: int|
                    if i < batch.len() && batch[i] is Some {
                        batch[i]
                    } else {
                        model.resolved[i]
                    },
            ),
            ..model
        }
    } else {
        model
    }
}

/// The state of the log.
#[verifier::ext_equal]
pub struct DemState {
    pub detector_groups: Seq<DemDetectorGroup>,
    pub edges: Seq<DemEdgeSpec>,
    pub pending: Seq<PendingSpec>,
    pub predictions: Seq<DemPrediction>,
    pub next_seq: u64,
    pub known_cids: Set<u64>,
    pub enabled: bool,
}

impl DemState {
    /// Every pending error model is well formed and still waits for something.
    pub open spec fn wf(self) -> bool {
        &&& forall|i: int| 0 <= i < self.pending.len() ==> (#[trigger] self.pending[i]).wf()
        &&& forall|i: int| 0 <= i < self.pending.len() ==> !(#[trigger] self.pending[i]).resolvable(self.known_cids)
    }

    /// The state of a log with nothing in it.
    pub open spec fn none(enabled: bool) -> DemState {
        DemState {
            detector_groups: Seq::empty(),
            edges: Seq::empty(),
            pending: Seq::empty(),
            predictions: Seq::empty(),
            next_seq: 0,
            known_cids: Set::empty(),
            enabled,
        }
    }

    /// The state after every ready error model has surfaced.
    pub open spec fn swept(self) -> DemState {
        DemState {
            edges: self.edges + ready_edges(self.pending, self.known_cids),
            pending: waiting(self.pending, self.known_cids),
            ..self
        }
    }

    /// The state after what became visible was taken.
    pub open spec fn after_drain(self) -> DemState {
        DemState { detector_groups: Seq::empty(), edges: Seq::empty(), ..self }
    }

    /// The state after a check model was announced.
    pub open spec fn after_check_model(self, gid: u64, cid: u64, count: u64) -> DemState {
        if self.enabled {
            DemState {
                detector_groups: self.detector_groups.push(DemDetectorGroup { gid, cid, count }),
                known_cids: self.known_cids.insert(cid),
                ..self
            }.swept()
        } else {
            self
        }
    }

    /// The state after an error model was registered.
    pub open spec fn after_error_model(self, model: PendingSpec) -> DemState {
        if !self.enabled {
            self
        } else if model.resolvable(self.known_cids) {
            DemState { edges: self.edges + model.edges(), ..self }
        } else {
            DemState { pending: self.pending.push(model), ..self }
        }
    }

    /// The state after one slot was resolved.
    pub open spec fn after_remote_resolved(self, eid: u64, ri: int, cid: u64) -> DemState {
        if self.enabled {
            DemState { pending: self.pending.map_values(|m: PendingSpec| with_slot(m, eid, ri, cid)), ..self }.swept()
        } else {
            self
        }
    }

    /// The state after a batch of slots was resolved.
    pub open spec fn after_remotes_resolved(self, eid: u64, batch: Seq<Option<u64>>) -> DemState {
        if self.enabled {
            DemState { pending: self.pending.map_values(|m: PendingSpec| with_slots(m, eid, batch)), ..self }.swept()
        } else {
            self
        }
    }
}

/// The error model that a registration makes, before any slot is resolved.
pub open spec fn registered(
    gid: u64,
    eid: u64,
    owning_cid: u64,
    errors: Seq<ErrorSpec>,
    slots: Seq<Option<RemoteCheckModel>>,
) -> PendingSpec {
    PendingSpec {
        gid,
        eid,
        owning_cid,
        errors,
        check_bias: slots.map_values(
            |s: Option<RemoteCheckModel>|
                match s {
                    Some(slot) => Some(slot.check_bias),
                    None => None,
                },
        ),
        resolved: Seq::new(slots.len(), |i: int| None),
    }
}

/// An error model that waits for its remote slots.
struct PendingErrorModel {
    gid: u64,
    eid: u64,
    owning_cid: u64,
    errors: Vec<Error>,
    check_bias: Vec<Option<u64>>,
    resolved: Vec<Option<u64>>,
}

impl PendingErrorModel {
    spec fn view(self) -> PendingSpec {
        PendingSpec {
            gid: self.gid,
            eid: self.eid,
            owning_cid: self.owning_cid,
            errors: errors_view(self.errors@),
            check_bias: self.check_bias@,
            resolved: self.resolved@,
        }
    }

    /// Whether a mechanism refers to a dead slot.
    fn references_dead_slot(&self, error: &Error) -> (dead: bool)
        ensures
            dead == self@.references_dead_slot(error@),
    {
        let mut k: usize = 0;
        while k < error.checks.len()
            invariant
                k <= error.checks@.len(),
                forall|j: int| 0 <= j < k ==> !self@.slot_dead(#[trigger] error@.checks[j]),
            decreases error.checks@.len() - k,
        {
            if let Some(ri) = error.checks[k].remote_check_model {
                let live = ri < self.check_bias.len() as u64 && self.check_bias[ri as usize].is_some();
                if !live {
                    assert(self@.slot_dead(error@.checks[k as int]));
                    return true;
                }
            }
            k += 1;
        }
        false
    }

    /// Whether every slot of a surviving mechanism is resolved to a known check model.
    fn is_resolvable(&self, known_cids: &IdSet) -> (ready: bool)
        requires
            self@.wf(),
        ensures
            ready == self@.resolvable(known_cids@),
    {
        let mut i: usize = 0;
        while i < self.errors.len()
            invariant
                i <= self.errors@.len(),
                self@.wf(),
                forall|j: int, k: int|
                    0 <= j < i && self@.survives(self@.errors[j]) && 0 <= k < self@.errors[j].checks.len()
                        ==> self@.check_ready(#[trigger] self@.errors[j].checks[k], known_cids@),
            decreases self.errors@.len() - i,
        {
            let error = &self.errors[i];
            assert(self@.errors[i as int] == error@);
            if !error.probability.is_non_positive() && !self.references_dead_slot(error) {
                let mut k: usize = 0;
                while k < error.checks.len()
                    invariant
                        i < self.errors@.len(),
                        self@.wf(),
                        error@ == self@.errors[i as int],
                        self@.survives(error@),
                        k <= error.checks@.len(),
                        forall|j: int| 0 <= j < k ==> self@.check_ready(#[trigger] error@.checks[j], known_cids@),
                    decreases error.checks@.len() - k,
                {
                    if let Some(ri) = error.checks[k].remote_check_model {
                        assert(!self@.slot_dead(error@.checks[k as int]));
                        assert(ri < self.resolved.len());
                        let known = match self.resolved[ri as usize] {
                            Some(cid) => known_cids.contains(cid),
                            None => false,
                        };
                        if !known {
                            assert(!self@.check_ready(self@.errors[i as int].checks[k as int], known_cids@));
                            return false;
                        }
                    }
                    k += 1;
                }
            }
            i += 1;
        }
        true
    }

    /// The edges of the surviving mechanisms.
    fn emit(&self, known_cids: &IdSet) -> (edges: Vec<DemEdge>)
        requires
            self@.wf(),
            self@.resolvable(known_cids@),
        ensures
            edges_view(edges@) == self@.edges(),
    {
        let mut edges: Vec<DemEdge> = Vec::new();
        let mut i: usize = 0;
        assert(edges_view(edges@) =~= Seq::<DemEdgeSpec>::empty());
        while i < self.errors.len()
            invariant
                i <= self.errors@.len(),
                self@.wf(),
                self@.resolvable(known_cids@),
                edges_view(edges@) == self@.edges_upto(i as int),
            decreases self.errors@.len() - i,
        {
            let error = &self.errors[i];
            let ghost value = self@.errors[i as int];
            assert(value == error@);
            if !error.probability.is_non_positive() && !self.references_dead_slot(error) {
                let mut detectors: Vec<(u64, u64)> = Vec::new();
                let mut k: usize = 0;
                while k < error.checks.len()
                    invariant
                        i < self.errors@.len(),
                        self@.wf(),
                        self@.resolvable(known_cids@),
                        value == self@.errors[i as int],
                        error@ == value,
                        self@.survives(value),
                        k <= error.checks@.len(),
                        detectors@ =~= value.checks.map_values(|c: RemoteCheck| self@.detector_of(c)).take(k as int),
                    decreases error.checks@.len() - k,
                {
                    let check = error.checks[k];
                    assert(check == self@.errors[i as int].checks[k as int]);
                    if let Some(ri) = check.remote_check_model {
                        assert(!self@.slot_dead(value.checks[k as int]));
                        assert(self@.check_ready(self@.errors[i as int].checks[k as int], known_cids@));
                        assert(ri < self.resolved.len());
                        let bias: u64 = self.check_bias[ri as usize].unwrap();
                        let cid: u64 = self.resolved[ri as usize].unwrap();
                        detectors.push((cid, check.check_index + bias));
                    } else {
                        detectors.push((self.owning_cid, check.check_index));
                    }
                    k += 1;
                }
                if detectors.len() > 0 {
                    let ghost before = edges@;
                    let edge = DemEdge {
                        gid: self.gid,
                        eid: self.eid,
                        error_index: i as u64,
                        detectors,
                        probability: error.probability,
                    };
                    assert(edge@ =~= self@.edge_of(i as int));
                    edges.push(edge);
                    assert(edges_view(edges@) =~= edges_view(before).push(edge@));
                }
            }
            i += 1;
        }
        edges
    }
}

/// The log of detector-error-model increments.
pub struct DemLog {
    ready: DemDrain,
    pending: Vec<PendingErrorModel>,
    predictions: Vec<DemPrediction>,
    next_seq: u64,
    known_cids: IdSet,
    disabled: bool,
}

spec fn pending_view(pending: Seq<PendingErrorModel>) -> Seq<PendingSpec> {
    pending.map_values(|m: PendingErrorModel| m@)
}

proof fn lemma_waiting_wf(pending: Seq<PendingSpec>, known: Set<u64>)
    requires
        forall|i: int| 0 <= i < pending.len() ==> (#[trigger] pending[i]).wf(),
    ensures
        forall|i: int| 0 <= i < waiting(pending, known).len() ==> (#[trigger] waiting(pending, known)[i]).wf(),
        forall|i: int| 0 <= i < waiting(pending, known).len() ==> !(#[trigger] waiting(pending, known)[i]).resolvable(known),
        waiting(pending, known).len() <= pending.len(),
    decreases pending.len(),
{
    if pending.len() > 0 {
        assert forall|i: int| 0 <= i < pending.drop_last().len() implies (#[trigger] pending.drop_last()[i]).wf() by {
            assert(pending.drop_last()[i] == pending[i]);
        }
        lemma_waiting_wf(pending.drop_last(), known);
        assert(pending.last() == pending[pending.len() - 1]);
    }
}

impl DemLog {
    /// The state of the log.
    pub closed spec fn view(&self) -> DemState {
        DemState {
            detector_groups: self.ready.detector_groups@,
            edges: edges_view(self.ready.edges@),
            pending: pending_view(self.pending@),
            predictions: self.predictions@,
            next_seq: self.next_seq,
            known_cids: self.known_cids@,
            enabled: !self.disabled,
        }
    }

    /// Every pending error model is well formed and still waits for something.
    pub open spec fn wf(&self) -> bool {
        self@.wf()
    }

    /// An empty log that records.
    pub fn new() -> (log: DemLog)
        ensures
            log.wf(),
            log@ == DemState::none(true),
    {
        let log = DemLog {
            ready: DemDrain { detector_groups: Vec::new(), edges: Vec::new() },
            pending: Vec::new(),
            predictions: Vec::new(),
            next_seq: 0,
            known_cids: IdSet::new(),
            disabled: false,
        };
        proof {
            assert(log@.edges =~= Seq::empty());
            assert(log@.pending =~= Seq::empty());
        }
        log
    }

    /// Switches recording on or off; while it is off every recording hook does nothing.
    pub fn set_enabled(&mut self, enabled: bool)
        requires
            old(self).wf(),
        ensures
            final(self).wf(),
            final(self)@ == (DemState { enabled, ..old(self)@ }),
    {
        self.disabled = !enabled;
    }

    /// Whether the log records.
    pub fn is_enabled(&self) -> (enabled: bool)
        ensures
            enabled == self@.enabled,
    {
        !self.disabled
    }

    /// The sequence number of the next report.
    pub fn next_seq(&self) -> (seq: u64)
        ensures
            seq == self@.next_seq,
    {
        self.next_seq
    }

    /// Moves every ready error model out of the pending list, in arrival order.
    fn sweep(&mut self)
        requires
            forall|i: int| 0 <= i < old(self)@.pending.len() ==> (#[trigger] old(self)@.pending[i]).wf(),
        ensures
            final(self)@ == old(self)@.swept(),
            final(self).wf(),
    {
        let ghost all = self@.pending;
        let ghost known = self@.known_cids;
        let ghost first_edges = self@.edges;
        let ghost mut seen: int = 0;
        let mut i: usize = 0;
        proof {
            assert(all.take(0) =~= Seq::<PendingSpec>::empty());
            assert(waiting(all.take(0), known) + all.skip(0) =~= all);
            assert(first_edges + ready_edges(all.take(0), known) =~= first_edges);
        }
        while i < self.pending.len()
            invariant
                0 <= seen <= all.len(),
                known == self.known_cids@,
                forall|i: int| 0 <= i < all.len() ==> (#[trigger] all[i]).wf(),
                i == waiting(all.take(seen), known).len(),
                self@.pending == waiting(all.take(seen), known) + all.skip(seen),
                self@ == (DemState {
                    edges: first_edges + ready_edges(all.take(seen), known),
                    pending: self@.pending,
                    ..old(self)@
                }),
            decreases all.len() - seen,
        {
            let ghost w = waiting(all.take(seen), known);
            proof {
                assert(self@.pending.len() == self.pending@.len());
                assert(all.take(seen + 1).drop_last() =~= all.take(seen));
                assert(self@.pending[i as int] == all.skip(seen)[0]);
                assert(self.pending@[i as int]@ == all[seen]);
            }
            if self.pending[i].is_resolvable(&self.known_cids) {
                let ghost before = self@;
                let ghost models = self.pending@;
                let model = self.pending.remove(i);
                let mut edges = model.emit(&self.known_cids);
                let ghost fresh = edges@;
                let ghost shown = self.ready.edges@;
                self.ready.edges.append(&mut edges);
                proof {
                    assert(edges_view(shown + fresh) =~= edges_view(shown) + edges_view(fresh));
                    assert(self@.pending =~= w + all.skip(seen + 1)) by {
                        assert(pending_view(models.remove(i as int)) =~= pending_view(models).remove(i as int));
                        assert((w + all.skip(seen)).remove(i as int) =~= w + all.skip(seen + 1));
                    }
                    assert(self@.edges =~= first_edges + (ready_edges(all.take(seen), known) + all[seen].edges()));
                    assert(ready_edges(all.take(seen + 1), known) == ready_edges(all.take(seen), known) + all[seen].edges());
                }
            } else {
                proof {
                    assert(w + all.skip(seen) =~= w.push(all[seen]) + all.skip(seen + 1));
                    assert(ready_edges(all.take(seen), known) + Seq::<DemEdgeSpec>::empty() =~= ready_edges(all.take(seen), known));
                }
                i += 1;
            }
            proof {
                seen = seen + 1;
            }
        }
        proof {
            assert(self@.pending.len() == self.pending@.len());
            assert(all.skip(seen).len() == 0);
            assert(all.take(seen) =~= all);
            assert(self@.pending =~= waiting(all, known));
            lemma_waiting_wf(all, known);
        }
    }

    /// A check model was created: its `count` detectors are known now, and edges that
    /// waited for it may surface.
    pub fn on_check_model(&mut self, gid: u64, cid: u64, count: u64)
        requires
            old(self).wf(),
        ensures
            final(self).wf(),
            final(self)@ == old(self)@.after_check_model(gid, cid, count),
    {
        if self.disabled {
            return;
        }
        self.ready.detector_groups.push(DemDetectorGroup { gid, cid, count });
        self.known_cids.insert(cid);
        assert(self@.pending == old(self)@.pending);
        self.sweep();
    }

    /// An error model was created. `errors` are its effective mechanisms, `slots` its
    /// remote slots (none where an instance removed the slot). It surfaces at once if
    /// it waits for nothing.
    pub fn on_error_model(
        &mut self,
        gid: u64,
        eid: u64,
        owning_cid: u64,
        errors: Vec<Error>,
        slots: &Vec<Option<RemoteCheckModel>>,
    )
        requires
            old(self).wf(),
            registered(gid, eid, owning_cid, errors_view(errors@), slots@).indices_fit(),
        ensures
            final(self).wf(),
            final(self)@ == old(self)@.after_error_model(registered(gid, eid, owning_cid, errors_view(errors@), slots@)),
    {
        let ghost value = registered(gid, eid, owning_cid, errors_view(errors@), slots@);
        let mut check_bias: Vec<Option<u64>> = Vec::new();
        let mut resolved: Vec<Option<u64>> = Vec::new();
        let mut i: usize = 0;
        while i < slots.len()
            invariant
                i <= slots@.len(),
                value == registered(gid, eid, owning_cid, errors_view(errors@), slots@),
                check_bias@ =~= value.check_bias.take(i as int),
                resolved@ =~= value.resolved.take(i as int),
            decreases slots@.len() - i,
        {
            let bias = match &slots[i] {
                Some(slot) => Some(slot.check_bias),
                None => None,
            };
            check_bias.push(bias);
            resolved.push(None);
            i += 1;
        }
        let model = PendingErrorModel { gid, eid, owning_cid, errors, check_bias, resolved };
        assert(model@ =~= value);
        if self.disabled {
            return;
        }
        if model.is_resolvable(&self.known_cids) {
            let mut edges = model.emit(&self.known_cids);
            let ghost fresh = edges@;
            let ghost shown = self.ready.edges@;
            self.ready.edges.append(&mut edges);
            proof {
                assert(edges_view(shown + fresh) =~= edges_view(shown) + edges_view(fresh));
                assert(self@.pending == old(self)@.pending);
            }
        } else {
            let ghost models = self.pending@;
            self.pending.push(model);
            proof {
                assert(self@.pending =~= old(self)@.pending.push(value));
                assert forall|i: int| 0 <= i < self@.pending.len() implies (#[trigger] self@.pending[i]).wf()
                    && !self@.pending[i].resolvable(self@.known_cids) by {
                    if i < models.len() {
                        assert(self@.pending[i] == old(self)@.pending[i]);
                    }
                }
            }
        }
    }

    /// Remote slot `ri` of error model `eid` resolved to check model `cid`. Unknown
    /// error models and slots are ignored.
    pub fn on_remote_resolved(&mut self, eid: u64, ri: usize, cid: u64)
        requires
            old(self).wf(),
        ensures
            final(self).wf(),
            final(self)@ == old(self)@.after_remote_resolved(eid, ri as int, cid),
    {
        if self.disabled {
            return;
        }
        let ghost all = self@.pending;
        let ghost target = all.map_values(|m: PendingSpec| with_slot(m, eid, ri as int, cid));
        let mut i: usize = 0;
        while i < self.pending.len()
            invariant
                all == old(self)@.pending,
                target == all.map_values(|m: PendingSpec| with_slot(m, eid, ri as int, cid)),
                self.pending@.len() == all.len(),
                i <= all.len(),
                self@ == (DemState { pending: self@.pending, ..old(self)@ }),
                forall|k: int| 0 <= k < i ==> self@.pending[k] == #[trigger] target[k],
                forall|k: int| i <= k < all.len() ==> self@.pending[k] == #[trigger] all[k],
            decreases all.len() - i,
        {
            assert(self@.pending[i as int] == self.pending@[i as int]@);
            if self.pending[i].eid == eid && ri < self.pending[i].resolved.len() {
                let ghost before = self.pending@;
                self.pending[i].resolved.set(ri, Some(cid));
                proof {
                    assert(self.pending@[i as int]@ =~= with_slot(before[i as int]@, eid, ri as int, cid));
                    assert(self@.pending =~= pending_view(before).update(i as int, self.pending@[i as int]@));
                }
            }
            i += 1;
        }
        assert(self@.pending =~= target);
        proof {
            assert forall|k: int| 0 <= k < target.len() implies (#[trigger] target[k]).wf() by {
                assert(all[k].wf());
                lemma_slots_keep_wf(all[k], target[k]);
            }
        }
        self.sweep();
    }

    /// A batch of remote slots of error model `eid` resolved. Unknown error models
    /// and surplus entries are ignored; an entry without a value leaves its slot.
    pub fn on_remotes_resolved(&mut self, eid: u64, resolved: &[Option<u64>])
        requires
            old(self).wf(),
        ensures
            final(self).wf(),
            final(self)@ == old(self)@.after_remotes_resolved(eid, resolved@),
    {
        if self.disabled {
            return;
        }
        let ghost all = self@.pending;
        let ghost target = all.map_values(|m: PendingSpec| with_slots(m, eid, resolved@));
        let mut i: usize = 0;
        while i < self.pending.len()
            invariant
                all == old(self)@.pending,
                target == all.map_values(|m: PendingSpec| with_slots(m, eid, resolved@)),
                self.pending@.len() == all.len(),
                i <= all.len(),
                self@ == (DemState { pending: self@.pending, ..old(self)@ }),
                forall|k: int| 0 <= k < i ==> self@.pending[k] == #[trigger] target[k],
                forall|k: int| i <= k < all.len() ==> self@.pending[k] == #[trigger] all[k],
            decreases all.len() - i,
        {
            assert(self@.pending[i as int] == self.pending@[i as int]@);
            assert(self@.pending[i as int] == all[i as int]);
            if self.pending[i].eid == eid {
                let mut slots: Vec<Option<u64>> = Vec::new();
                let mut k: usize = 0;
                while k < self.pending[i].resolved.len()
                    invariant
                        i < self.pending@.len(),
                        k <= self.pending@[i as int].resolved@.len(),
                        slots@.len() == k,
                        forall|j: int| 0 <= j < k ==> slots@[j] == (if j < resolved@.len() && resolved@[j] is Some {
                            resolved@[j]
                        } else {
                            self.pending@[i as int].resolved@[j]
                        }),
                    decreases self.pending@[i as int].resolved@.len() - k,
                {
                    if k < resolved.len() && resolved[k].is_some() {
                        slots.push(resolved[k]);
                    } else {
                        slots.push(self.pending[i].resolved[k]);
                    }
                    k += 1;
                }
                let ghost before = self.pending@;
                self.pending[i].resolved = slots;
                proof {
                    assert(self.pending@[i as int]@ =~= with_slots(before[i as int]@, eid, resolved@));
                    assert(self@.pending =~= pending_view(before).update(i as int, self.pending@[i as int]@));
                }
            }
            i += 1;
        }
        assert(self@.pending =~= target);
        proof {
            assert forall|k: int| 0 <= k < target.len() implies (#[trigger] target[k]).wf() by {
                assert(all[k].wf());
                lemma_slots_keep_wf(all[k], target[k]);
            }
        }
        self.sweep();
    }

    /// [`DemLog::on_remotes_resolved`], unless the batch was cut short: a cancelled
    /// expansion leaves fewer entries than the error model has slots.
    pub fn on_remotes_resolved_guarded(&mut self, eid: u64, resolved: &[Option<u64>], expected_slots: usize)
        requires
            old(self).wf(),
        ensures
            final(self).wf(),
            resolved@.len() == expected_slots ==> final(self)@ == old(self)@.after_remotes_resolved(eid, resolved@),
            resolved@.len() != expected_slots ==> final(self)@ == old(self)@,
    {
        if resolved.len() == expected_slots {
            self.on_remotes_resolved(eid, resolved);
        }
    }

    /// Whether some error model still waits.
    pub fn has_pending(&self) -> (waits: bool)
        ensures
            waits == (self@.pending.len() > 0),
    {
        self.pending.len() > 0
    }

    /// Takes everything that became visible since the previous drain.
    pub fn drain(&mut self) -> (drained: DemDrain)
        requires
            old(self).wf(),
        ensures
            drained.detector_groups@ == old(self)@.detector_groups,
            edges_view(drained.edges@) == old(self)@.edges,
            final(self).wf(),
            final(self)@ == old(self)@.after_drain(),
    {
        let mut drained = DemDrain { detector_groups: Vec::new(), edges: Vec::new() };
        core::mem::swap(&mut self.ready, &mut drained);
        assert(self@ =~= old(self)@.after_drain());
        drained
    }

    /// Records the report of a decode under the next sequence number.
    pub fn push_prediction(&mut self, prediction: DemPrediction)
        requires
            old(self).wf(),
            old(self)@.enabled ==> old(self)@.next_seq < u64::MAX,
        ensures
            final(self).wf(),
            final(self)@ == (if old(self)@.enabled {
                DemState {
                    predictions: old(self)@.predictions.push(DemPrediction { seq: old(self)@.next_seq, ..prediction }),
                    next_seq: (old(self)@.next_seq + 1) as u64,
                    ..old(self)@
                }
            } else {
                old(self)@
            }),
    {
        if self.disabled {
            return;
        }
        let mut prediction = prediction;
        prediction.seq = self.next_seq;
        self.next_seq = self.next_seq + 1;
        self.predictions.push(prediction);
    }

    /// Takes every recorded report.
    pub fn drain_predictions(&mut self) -> (predictions: Vec<DemPrediction>)
        requires
            old(self).wf(),
        ensures
            predictions@ == old(self)@.predictions,
            final(self).wf(),
            final(self)@ == (DemState { predictions: Seq::empty(), ..old(self)@ }),
    {
        let mut predictions: Vec<DemPrediction> = Vec::new();
        core::mem::swap(&mut self.predictions, &mut predictions);
        predictions
    }

    /// Takes the recorded reports of one gadget; the others stay, in order.
    pub fn drain_predictions_for(&mut self, gid: u64) -> (predictions: Vec<DemPrediction>)
        requires
            old(self).wf(),
        ensures
            predictions@ == old(self)@.predictions.filter(|p: DemPrediction| p.gid == gid),
            final(self).wf(),
            final(self)@ == (DemState {
                predictions: old(self)@.predictions.filter(|p: DemPrediction| p.gid != gid),
                ..old(self)@
            }),
    {
        let ghost all = self.predictions@;
        let mut queue: Vec<DemPrediction> = Vec::new();
        core::mem::swap(&mut self.predictions, &mut queue);
        let mut matched: Vec<DemPrediction> = Vec::new();
        let mut remaining: Vec<DemPrediction> = Vec::new();
        let ghost is_match = |p: DemPrediction| p.gid == gid;
        let ghost is_other = |p: DemPrediction| p.gid != gid;
        let mut i: usize = 0;
        proof {
            reveal(Seq::filter);
            assert(all.skip(0) =~= all);
            assert(all.take(0) =~= Seq::empty());
        }
        let count: usize = queue.len();
        while i < count
            invariant
                i <= count == all.len(),
                queue@ == all.skip(i as int),
                is_match == (|p: DemPrediction| p.gid == gid),
                is_other == (|p: DemPrediction| p.gid != gid),
                matched@ == all.take(i as int).filter(is_match),
                remaining@ == all.take(i as int).filter(is_other),
            decreases count - i,
        {
            let prediction = queue.remove(0);
            proof {
                reveal(Seq::filter);
                assert(queue@ =~= all.skip(i as int + 1));
                assert(all.take(i as int + 1).drop_last() =~= all.take(i as int));
                assert(all.take(i as int + 1).last() == prediction);
            }
            if prediction.gid == gid {
                matched.push(prediction);
            } else {
                remaining.push(prediction);
            }
            i += 1;
        }
        assert(all.take(all.len() as int) =~= all);
        self.predictions = remaining;
        matched
    }

    /// Forgets everything recorded; whether the log records stays as it is.
    pub fn reset(&mut self)
        requires
            old(self).wf(),
        ensures
            final(self).wf(),
            final(self)@ == DemState::none(old(self)@.enabled),
    {
        let disabled = self.disabled;
        let mut fresh = DemLog::new();
        fresh.disabled = disabled;
        *self = fresh;
    }
}

proof fn lemma_slots_keep_wf(before: PendingSpec, after: PendingSpec)
    requires
        before.wf(),
        after == (PendingSpec { resolved: after.resolved, ..before }),
        after.resolved.len() == before.resolved.len(),
    ensures
        after.wf(),
{
    assert forall|e: ErrorSpec| after.survives(e) == #[trigger] before.survives(e) by {
        assert forall|c: RemoteCheck| after.slot_dead(c) == #[trigger] before.slot_dead(c) by {
        }
    }
    assert forall|i: int, k: int|
        0 <= i < after.errors.len() && after.survives(after.errors[i]) && 0 <= k < after.errors[i].checks.len() implies ((
    #[trigger] after.errors[i].checks[k]).remote_check_model matches Some(ri) ==> after.errors[i].checks[k].check_index
        + after.check_bias[ri as int]->0 <= u64::MAX) by {
        assert(before.survives(before.errors[i]));
        assert(before.errors[i].checks[k] == after.errors[i].checks[k]);
    }
}

/// Every endpoint of a surfaced edge is a detector of the owning check model, or of
/// a check model that was announced before.
pub proof fn law_edges_have_announced_endpoints(model: PendingSpec, known: Set<u64>, e: int, d: int)
    requires
        model.resolvable(known),
        0 <= e < model.edges().len(),
        0 <= d < model.edges()[e].detectors.len(),
    ensures
        model.edges()[e].detectors[d].0 == model.owning_cid || known.contains(model.edges()[e].detectors[d].0),
{
    lemma_edge_source(model, model.errors.len() as int, e);
    let i = choose|i: int|
        0 <= i < model.errors.len() && model.survives(model.errors[i]) && model.errors[i].checks.len() > 0
            && model.edges()[e] == model.edge_of(i);
    let check = model.errors[i].checks[d];
    assert(model.check_ready(model.errors[i].checks[d], known));
}

proof fn lemma_edge_source(model: PendingSpec, n: int, e: int)
    requires
        0 <= n <= model.errors.len(),
        0 <= e < model.edges_upto(n).len(),
    ensures
        exists|i: int|
            0 <= i < n && model.survives(model.errors[i]) && model.errors[i].checks.len() > 0
                && model.edges_upto(n)[e] == #[trigger] model.edge_of(i),
    decreases n,
{
    if model.survives(model.errors[n - 1]) && model.errors[n - 1].checks.len() > 0 && e == model.edges_upto(n).len() - 1 {
        assert(model.edges_upto(n)[e] == model.edge_of(n - 1));
    } else {
        lemma_edge_source(model, n - 1, e);
    }
}

/// A surfaced edge fires with positive probability, has a detector, and comes from
/// the mechanism that its index names.
pub proof fn law_edges_come_from_mechanisms(model: PendingSpec, e: int)
    requires
        model.errors.len() <= u64::MAX,
        0 <= e < model.edges().len(),
    ensures
        model.edges()[e].error_index < model.errors.len(),
        model.edges()[e] == model.edge_of(model.edges()[e].error_index as int),
        !model.edges()[e].probability.non_positive(),
        model.edges()[e].detectors.len() > 0,
        model.edges()[e].eid == model.eid && model.edges()[e].gid == model.gid,
{
    lemma_edge_source(model, model.errors.len() as int, e);
}

/// A log that does not record is changed by no recording hook.
pub proof fn law_disabled_log_records_nothing(
    s: DemState,
    gid: u64,
    cid: u64,
    count: u64,
    model: PendingSpec,
    eid: u64,
    ri: int,
    batch: Seq<Option<u64>>,
)
    requires
        !s.enabled,
    ensures
        s.after_check_model(gid, cid, count) == s,
        s.after_error_model(model) == s,
        s.after_remote_resolved(eid, ri, cid) == s,
        s.after_remotes_resolved(eid, batch) == s,
{
}

/// A second sweep finds nothing: whatever is ready surfaces at once.
pub proof fn law_sweep_is_idempotent(s: DemState)
    requires
        forall|i: int| 0 <= i < s.pending.len() ==> (#[trigger] s.pending[i]).wf(),
    ensures
        s.swept().swept() == s.swept(),
        s.swept().wf(),
{
    lemma_waiting_wf(s.pending, s.known_cids);
    lemma_settled(s.swept().pending, s.known_cids);
    assert(s.swept().edges + Seq::<DemEdgeSpec>::empty() =~= s.swept().edges);
}

proof fn lemma_settled(pending: Seq<PendingSpec>, known: Set<u64>)
    requires
        forall|i: int| 0 <= i < pending.len() ==> !(#[trigger] pending[i]).resolvable(known),
    ensures
        waiting(pending, known) == pending,
        ready_edges(pending, known) == Seq::<DemEdgeSpec>::empty(),
    decreases pending.len(),
{
    if pending.len() > 0 {
        assert forall|i: int| 0 <= i < pending.drop_last().len() implies !(#[trigger] pending.drop_last()[i]).resolvable(known) by {
            assert(pending.drop_last()[i] == pending[i]);
        }
        lemma_settled(pending.drop_last(), known);
        assert(pending.last() == pending[pending.len() - 1]);
        assert(pending.drop_last().push(pending.last()) =~= pending);
    }
}

/// The shown edges only grow until they are drained: no hook takes one back.
pub proof fn law_hooks_only_append_edges(s: DemState, gid: u64, cid: u64, count: u64, model: PendingSpec, eid: u64, ri: int)
    ensures
        s.edges.is_prefix_of(s.after_check_model(gid, cid, count).edges),
        s.edges.is_prefix_of(s.after_error_model(model).edges),
        s.edges.is_prefix_of(s.after_remote_resolved(eid, ri, cid).edges),
{
}

// ---------------------------------------------------------------------------
// Successive drains
// ---------------------------------------------------------------------------

/// What can happen to a log between two resets.
pub enum DemEvent {
    CheckModel { gid: u64, cid: u64, count: u64 },
    ErrorModel(PendingSpec),
    RemoteResolved { eid: u64, ri: int, cid: u64 },
    RemotesResolved { eid: u64, batch: Seq<Option<u64>> },
    /// recording was switched on or off
    Enabled(bool),
    /// reports were added or taken
    Reports { predictions: Seq<DemPrediction>, next_seq: u64 },
    Drained,
}

impl DemState {
    /// The state after an event.
    pub open spec fn after(self, event: DemEvent) -> DemState {
        match event {
            DemEvent::CheckModel { gid, cid, count } => self.after_check_model(gid, cid, count),
            DemEvent::ErrorModel(model) => self.after_error_model(model),
            DemEvent::RemoteResolved { eid, ri, cid } => self.after_remote_resolved(eid, ri, cid),
            DemEvent::RemotesResolved { eid, batch } => self.after_remotes_resolved(eid, batch),
            DemEvent::Enabled(enabled) => DemState { enabled, ..self },
            DemEvent::Reports { predictions, next_seq } => DemState { predictions, next_seq, ..self },
            DemEvent::Drained => self.after_drain(),
        }
    }

    /// The states differ in what was drained only.
    pub open spec fn same_but_drained(self, other: DemState) -> bool {
        self == (DemState { detector_groups: self.detector_groups, edges: self.edges, ..other })
    }
}

/// The state of an empty log after a run of events.
pub open spec fn state_after(enabled: bool, events: Seq<DemEvent>) -> DemState
    decreases events.len(),
{
    if events.len() == 0 {
        DemState::none(enabled)
    } else {
        state_after(enabled, events.drop_last()).after(events.last())
    }
}

/// The detector groups that the drains of a run returned, one drain after the other.
pub open spec fn drained_groups(enabled: bool, events: Seq<DemEvent>) -> Seq<DemDetectorGroup>
    decreases events.len(),
{
    if events.len() == 0 {
        Seq::empty()
    } else if events.last() is Drained {
        drained_groups(enabled, events.drop_last()) + state_after(enabled, events.drop_last()).detector_groups
    } else {
        drained_groups(enabled, events.drop_last())
    }
}

/// The edges that the drains of a run returned, one drain after the other.
pub open spec fn drained_edges(enabled: bool, events: Seq<DemEvent>) -> Seq<DemEdgeSpec>
    decreases events.len(),
{
    if events.len() == 0 {
        Seq::empty()
    } else if events.last() is Drained {
        drained_edges(enabled, events.drop_last()) + state_after(enabled, events.drop_last()).edges
    } else {
        drained_edges(enabled, events.drop_last())
    }
}

/// A run without its drains.
pub open spec fn without_drains(events: Seq<DemEvent>) -> Seq<DemEvent>
    decreases events.len(),
{
    if events.len() == 0 {
        Seq::empty()
    } else if events.last() is Drained {
        without_drains(events.drop_last())
    } else {
        without_drains(events.drop_last()).push(events.last())
    }
}

/// A drain right after a drain returns nothing.
pub proof fn law_second_drain_is_empty(s: DemState)
    ensures
        s.after_drain().detector_groups == Seq::<DemDetectorGroup>::empty(),
        s.after_drain().edges == Seq::<DemEdgeSpec>::empty(),
        s.after_drain().after_drain() == s.after_drain(),
{
}

/// What an event adds does not depend on what was drained before it.
proof fn lemma_event_ignores_drains(a: DemState, b: DemState, groups: Seq<DemDetectorGroup>, edges: Seq<DemEdgeSpec>, event: DemEvent)
    requires
        a.same_but_drained(b),
        b.detector_groups == groups + a.detector_groups,
        b.edges == edges + a.edges,
        !(event is Drained),
    ensures
        a.after(event).same_but_drained(b.after(event)),
        b.after(event).detector_groups == groups + a.after(event).detector_groups,
        b.after(event).edges == edges + a.after(event).edges,
{
    assert(b.after(event).detector_groups =~= groups + a.after(event).detector_groups);
    assert(b.after(event).edges =~= edges + a.after(event).edges);
}

/// Every group and every edge is returned by one drain only, and none is lost: what the
/// drains returned, one after the other, and what the log still holds is what the log
/// would hold had it never been drained.
pub proof fn law_drains_partition_the_log(enabled: bool, events: Seq<DemEvent>)
    ensures
        drained_groups(enabled, events) + state_after(enabled, events).detector_groups == state_after(
            enabled,
            without_drains(events),
        ).detector_groups,
        drained_edges(enabled, events) + state_after(enabled, events).edges == state_after(
            enabled,
            without_drains(events),
        ).edges,
        state_after(enabled, events).same_but_drained(state_after(enabled, without_drains(events))),
    decreases events.len(),
{
    let whole = state_after(enabled, without_drains(events));
    let groups = drained_groups(enabled, events);
    let edges = drained_edges(enabled, events);
    if events.len() > 0 {
        let earlier = events.drop_last();
        law_drains_partition_the_log(enabled, earlier);
        if !(events.last() is Drained) {
            assert(without_drains(events).drop_last() =~= without_drains(earlier));
            lemma_event_ignores_drains(
                state_after(enabled, earlier),
                state_after(enabled, without_drains(earlier)),
                groups,
                edges,
                events.last(),
            );
        }
    }
    assert(groups + state_after(enabled, events).detector_groups =~= whole.detector_groups);
    assert(edges + state_after(enabled, events).edges =~= whole.edges);
}

/// A registered error model has the ids of the edge, and owns check model `cid`.
pub open spec fn owned(events: Seq<DemEvent>, gid: u64, eid: u64, cid: u64) -> bool {
    exists|i: int|
        0 <= i < events.len() && (#[trigger] events[i] matches DemEvent::ErrorModel(model) && model.gid == gid && model.eid == eid
            && model.owning_cid == cid)
}

/// Check model `cid` has one of the groups.
pub open spec fn grouped(groups: Seq<DemDetectorGroup>, cid: u64) -> bool {
    exists|i: int| 0 <= i < groups.len() && (#[trigger] groups[i]).cid == cid
}

/// Every detector of an edge belongs to the check model that owns the error model, or to
/// one that has one of the groups.
pub open spec fn edge_anchored(events: Seq<DemEvent>, groups: Seq<DemDetectorGroup>, edge: DemEdgeSpec) -> bool {
    forall|d: int|
        0 <= d < edge.detectors.len() ==> owned(events, edge.gid, edge.eid, (#[trigger] edge.detectors[d]).0) || grouped(
            groups,
            edge.detectors[d].0,
        )
}

/// Every edge of a list is anchored.
pub open spec fn edges_anchored(events: Seq<DemEvent>, groups: Seq<DemDetectorGroup>, edges: Seq<DemEdgeSpec>) -> bool {
    forall|e: int| 0 <= e < edges.len() ==> edge_anchored(events, groups, #[trigger] edges[e])
}

/// Every error model that waits was registered.
spec fn all_owned(events: Seq<DemEvent>, pending: Seq<PendingSpec>) -> bool {
    forall|i: int|
        0 <= i < pending.len() ==> owned(events, (#[trigger] pending[i]).gid, pending[i].eid, pending[i].owning_cid)
}

/// Every known check model has a group.
spec fn all_grouped(groups: Seq<DemDetectorGroup>, known: Set<u64>) -> bool {
    forall|cid: u64| #[trigger] known.contains(cid) ==> grouped(groups, cid)
}

/// The edges of a ready error model are anchored.
proof fn lemma_model_anchored(events: Seq<DemEvent>, groups: Seq<DemDetectorGroup>, known: Set<u64>, model: PendingSpec)
    requires
        model.resolvable(known),
        owned(events, model.gid, model.eid, model.owning_cid),
        all_grouped(groups, known),
    ensures
        edges_anchored(events, groups, model.edges()),
{
    assert forall|e: int| 0 <= e < model.edges().len() implies edge_anchored(events, groups, #[trigger] model.edges()[e]) by {
        lemma_edge_source(model, model.errors.len() as int, e);
        assert forall|d: int| 0 <= d < model.edges()[e].detectors.len() implies owned(
            events,
            model.edges()[e].gid,
            model.edges()[e].eid,
            (#[trigger] model.edges()[e].detectors[d]).0,
        ) || grouped(groups, model.edges()[e].detectors[d].0) by {
            law_edges_have_announced_endpoints(model, known, e, d);
        }
    }
}

/// The edges that a sweep shows are anchored, and what keeps waiting was registered.
proof fn lemma_sweep_anchored(events: Seq<DemEvent>, groups: Seq<DemDetectorGroup>, known: Set<u64>, pending: Seq<PendingSpec>)
    requires
        all_owned(events, pending),
        all_grouped(groups, known),
    ensures
        edges_anchored(events, groups, ready_edges(pending, known)),
        all_owned(events, waiting(pending, known)),
    decreases pending.len(),
{
    if pending.len() > 0 {
        let earlier = pending.drop_last();
        assert forall|i: int| 0 <= i < earlier.len() implies owned(
            events,
            (#[trigger] earlier[i]).gid,
            earlier[i].eid,
            earlier[i].owning_cid,
        ) by {
            assert(earlier[i] == pending[i]);
        }
        lemma_sweep_anchored(events, groups, known, earlier);
        assert(pending.last() == pending[pending.len() - 1]);
        if pending.last().resolvable(known) {
            lemma_model_anchored(events, groups, known, pending.last());
        }
    }
}

/// A later event and further groups take no anchor away.
proof fn lemma_anchors_stay(
    events: Seq<DemEvent>,
    later: Seq<DemEvent>,
    groups: Seq<DemDetectorGroup>,
    more: Seq<DemDetectorGroup>,
    edges: Seq<DemEdgeSpec>,
    pending: Seq<PendingSpec>,
    known: Set<u64>,
)
    requires
        events.is_prefix_of(later),
        groups.is_prefix_of(more),
    ensures
        edges_anchored(events, groups, edges) ==> edges_anchored(later, more, edges),
        all_owned(events, pending) ==> all_owned(later, pending),
        all_grouped(groups, known) ==> all_grouped(more, known),
{
    assert forall|gid: u64, eid: u64, cid: u64| #[trigger] owned(events, gid, eid, cid) implies owned(later, gid, eid, cid) by {
        let i = choose|i: int|
            0 <= i < events.len() && (#[trigger] events[i] matches DemEvent::ErrorModel(model) && model.gid == gid && model.eid
                == eid && model.owning_cid == cid);
        assert(later[i] == events[i]);
    }
    assert forall|cid: u64| #[trigger] grouped(groups, cid) implies grouped(more, cid) by {
        let i = choose|i: int| 0 <= i < groups.len() && (#[trigger] groups[i]).cid == cid;
        assert(more[i] == groups[i]);
    }
    if edges_anchored(events, groups, edges) {
        assert forall|e: int| 0 <= e < edges.len() implies edge_anchored(later, more, #[trigger] edges[e]) by {
            assert(edge_anchored(events, groups, edges[e]));
        }
    }
}

/// What holds of a log after every run of events.
proof fn lemma_log_anchored(enabled: bool, events: Seq<DemEvent>)
    ensures
        all_owned(events, state_after(enabled, events).pending),
        all_grouped(
            drained_groups(enabled, events) + state_after(enabled, events).detector_groups,
            state_after(enabled, events).known_cids,
        ),
        edges_anchored(
            events,
            drained_groups(enabled, events) + state_after(enabled, events).detector_groups,
            state_after(enabled, events).edges,
        ),
        edges_anchored(events, drained_groups(enabled, events), drained_edges(enabled, events)),
    decreases events.len(),
{
    if events.len() > 0 {
        let earlier = events.drop_last();
        lemma_log_anchored(enabled, earlier);
        let before = state_after(enabled, earlier);
        let after = state_after(enabled, events);
        let old_groups = drained_groups(enabled, earlier) + before.detector_groups;
        let groups = drained_groups(enabled, events) + after.detector_groups;
        assert(old_groups.is_prefix_of(groups)) by {
            if events.last() is Drained {
                assert(groups =~= old_groups);
            }
        }
        lemma_anchors_stay(earlier, events, old_groups, groups, before.edges, before.pending, before.known_cids);
        lemma_anchors_stay(
            earlier,
            events,
            drained_groups(enabled, earlier),
            drained_groups(enabled, events),
            drained_edges(enabled, earlier),
            before.pending,
            before.known_cids,
        );
        match events.last() {
            DemEvent::CheckModel { gid, cid, count } => {
                if before.enabled {
                    assert(groups.last() == (DemDetectorGroup { gid, cid, count }));
                    assert(groups[groups.len() - 1].cid == cid);
                    assert(grouped(groups, cid));
                    assert(all_grouped(groups, after.known_cids));
                    lemma_sweep_anchored(events, groups, after.known_cids, before.pending);
                }
            },
            DemEvent::ErrorModel(model) => {
                assert(events[events.len() - 1] == DemEvent::ErrorModel(model));
                assert(owned(events, model.gid, model.eid, model.owning_cid));
                if before.enabled && model.resolvable(before.known_cids) {
                    lemma_model_anchored(events, groups, before.known_cids, model);
                }
            },
            DemEvent::RemoteResolved { eid, ri, cid } => {
                if before.enabled {
                    let written = before.pending.map_values(|m: PendingSpec| with_slot(m, eid, ri, cid));
                    assert forall|i: int| 0 <= i < written.len() implies owned(
                        events,
                        (#[trigger] written[i]).gid,
                        written[i].eid,
                        written[i].owning_cid,
                    ) by {
                        assert(owned(events, before.pending[i].gid, before.pending[i].eid, before.pending[i].owning_cid));
                    }
                    lemma_sweep_anchored(events, groups, before.known_cids, written);
                }
            },
            DemEvent::RemotesResolved { eid, batch } => {
                if before.enabled {
                    let written = before.pending.map_values(|m: PendingSpec| with_slots(m, eid, batch));
                    assert forall|i: int| 0 <= i < written.len() implies owned(
                        events,
                        (#[trigger] written[i]).gid,
                        written[i].eid,
                        written[i].owning_cid,
                    ) by {
                        assert(owned(events, before.pending[i].gid, before.pending[i].eid, before.pending[i].owning_cid));
                    }
                    lemma_sweep_anchored(events, groups, before.known_cids, written);
                }
            },
            DemEvent::Drained => {
                assert(groups =~= old_groups);
                assert(drained_groups(enabled, events) =~= old_groups);
                lemma_anchors_stay(
                    earlier,
                    events,
                    drained_groups(enabled, earlier),
                    old_groups,
                    drained_edges(enabled, earlier),
                    before.pending,
                    before.known_cids,
                );
            },
            _ => {},
        }
    }
}

/// A drained edge ends at detectors of the check model that owns its error model, and of
/// check models whose group came with the same drain or an earlier one.
pub proof fn law_drained_edges_end_at_drained_groups(enabled: bool, events: Seq<DemEvent>)
    ensures
        edges_anchored(events, drained_groups(enabled, events), drained_edges(enabled, events)),
{
    lemma_log_anchored(enabled, events);
}

/// The edges of an error model are those of its mechanisms that can fire, have a detector
/// and refer to no slot that is gone. An edge ends at the checks of its mechanism, those of
/// a remote slot counted from the bias of the slot.
pub proof fn law_edges_are_the_surviving_mechanisms(model: PendingSpec)
    ensures
        model.edges() == Seq::new(model.errors.len(), |j: int| j).filter(
            |j: int|
                !model.errors[j].probability.non_positive() && model.errors[j].checks.len() > 0 && forall|k: int|
                    0 <= k < model.errors[j].checks.len() ==> (#[trigger] model.errors[j].checks[k].remote_check_model matches Some(
                        ri,
                    ) ==> ri < model.check_bias.len() && model.check_bias[ri as int] is Some),
        ).map_values(
            |j: int|
                DemEdgeSpec {
                    gid: model.gid,
                    eid: model.eid,
                    error_index: j as u64,
                    detectors: model.errors[j].checks.map_values(
                        |c: RemoteCheck|
                            match c.remote_check_model {
                                Some(ri) => (
                                    model.resolved[ri as int]->0,
                                    (c.check_index + model.check_bias[ri as int]->0) as u64,
                                ),
                                None => (model.owning_cid, c.check_index),
                            },
                    ),
                    probability: model.errors[j].probability,
                },
        ),
{
    lemma_edges_listed(model, model.errors.len() as int);
}

proof fn lemma_edges_listed(model: PendingSpec, n: int)
    requires
        0 <= n <= model.errors.len(),
    ensures
        model.edges_upto(n) == Seq::new(n as nat, |j: int| j).filter(
            |j: int|
                !model.errors[j].probability.non_positive() && model.errors[j].checks.len() > 0 && forall|k: int|
                    0 <= k < model.errors[j].checks.len() ==> (#[trigger] model.errors[j].checks[k].remote_check_model matches Some(
                        ri,
                    ) ==> ri < model.check_bias.len() && model.check_bias[ri as int] is Some),
        ).map_values(
            |j: int|
                DemEdgeSpec {
                    gid: model.gid,
                    eid: model.eid,
                    error_index: j as u64,
                    detectors: model.errors[j].checks.map_values(
                        |c: RemoteCheck|
                            match c.remote_check_model {
                                Some(ri) => (
                                    model.resolved[ri as int]->0,
                                    (c.check_index + model.check_bias[ri as int]->0) as u64,
                                ),
                                None => (model.owning_cid, c.check_index),
                            },
                    ),
                    probability: model.errors[j].probability,
                },
        ),
    decreases n,
{
    reveal(Seq::filter);
    let kept = |j: int|
        !model.errors[j].probability.non_positive() && model.errors[j].checks.len() > 0 && forall|k: int|
            0 <= k < model.errors[j].checks.len() ==> (#[trigger] model.errors[j].checks[k].remote_check_model matches Some(
                ri,
            ) ==> ri < model.check_bias.len() && model.check_bias[ri as int] is Some);
    let edge = |j: int|
        DemEdgeSpec {
            gid: model.gid,
            eid: model.eid,
            error_index: j as u64,
            detectors: model.errors[j].checks.map_values(
                |c: RemoteCheck|
                    match c.remote_check_model {
                        Some(ri) => (
                            model.resolved[ri as int]->0,
                            (c.check_index + model.check_bias[ri as int]->0) as u64,
                        ),
                        None => (model.owning_cid, c.check_index),
                    },
            ),
            probability: model.errors[j].probability,
        };
    let all = Seq::new(n as nat, |j: int| j);
    if n > 0 {
        lemma_edges_listed(model, n - 1);
        let error = model.errors[n - 1];
        let before = Seq::new((n - 1) as nat, |j: int| j);
        assert(all.drop_last() =~= before);
        assert(all.last() == n - 1);
        assert(kept(n - 1) == (model.survives(error) && error.checks.len() > 0)) by {
            if kept(n - 1) {
                assert forall|k: int| 0 <= k < error.checks.len() implies !model.slot_dead(#[trigger] error.checks[k]) by {
                    assert(model.errors[n - 1].checks[k].remote_check_model == error.checks[k].remote_check_model);
                }
            } else if model.survives(error) {
                assert forall|k: int| 0 <= k < model.errors[n - 1].checks.len() implies (
                #[trigger] model.errors[n - 1].checks[k].remote_check_model matches Some(ri) ==> ri < model.check_bias.len()
                    && model.check_bias[ri as int] is Some) by {
                    assert(!model.slot_dead(error.checks[k]));
                }
            }
        }
        assert(edge(n - 1).detectors =~= model.edge_of(n - 1).detectors);
        if kept(n - 1) {
            assert(all.filter(kept) == before.filter(kept).push(n - 1));
            assert(all.filter(kept).map_values(edge) =~= before.filter(kept).map_values(edge).push(edge(n - 1)));
        } else {
            assert(all.filter(kept) == before.filter(kept));
        }
    } else {
        assert(all =~= Seq::<int>::empty());
        assert(all.filter(kept).map_values(edge) =~= Seq::<DemEdgeSpec>::empty());
    }
}

/// A sweep shows all edges of the error models that are ready, in arrival order, and keeps
/// the others.
pub proof fn law_sweep_shows_what_is_ready(s: DemState)
    ensures
        s.swept().pending == s.pending.filter(|m: PendingSpec| !m.resolvable(s.known_cids)),
        s.swept().edges == s.edges + s.pending.filter(|m: PendingSpec| m.resolvable(s.known_cids)).map_values(
            |m: PendingSpec| m.edges(),
        ).flatten(),
        s.swept().detector_groups == s.detector_groups,
        s.swept().predictions == s.predictions,
        s.swept().known_cids == s.known_cids,
{
    lemma_sweep_lists(s.pending, s.known_cids);
}

proof fn lemma_sweep_lists(pending: Seq<PendingSpec>, known: Set<u64>)
    ensures
        waiting(pending, known) == pending.filter(|m: PendingSpec| !m.resolvable(known)),
        ready_edges(pending, known) == pending.filter(|m: PendingSpec| m.resolvable(known)).map_values(
            |m: PendingSpec| m.edges(),
        ).flatten(),
    decreases pending.len(),
{
    reveal(Seq::filter);
    let ready = |m: PendingSpec| m.resolvable(known);
    let edges = |m: PendingSpec| m.edges();
    if pending.len() > 0 {
        let (rest, m) = (pending.drop_last(), pending.last());
        lemma_sweep_lists(rest, known);
        if ready(m) {
            rest.filter(ready).map_values(edges).lemma_flatten_push(edges(m));
            assert(pending.filter(ready).map_values(edges) =~= rest.filter(ready).map_values(edges).push(edges(m)));
        } else {
            assert(ready_edges(pending, known) =~= ready_edges(rest, known));
        }
    } else {
        assert(pending.filter(ready).map_values(edges) =~= Seq::<Seq<DemEdgeSpec>>::empty());
    }
}

/// An error model is ready exactly if every slot that a mechanism which can land refers to
/// stands for a check model that has been announced.
pub proof fn law_ready_means_all_slots_announced(model: PendingSpec, known: Set<u64>)
    ensures
        model.resolvable(known) <==> forall|i: int, k: int|
            0 <= i < model.errors.len() && !model.errors[i].probability.non_positive() && (forall|j: int|
                0 <= j < model.errors[i].checks.len() ==> (#[trigger] model.errors[i].checks[j].remote_check_model matches Some(
                    rj,
                ) ==> rj < model.check_bias.len() && model.check_bias[rj as int] is Some)) && 0 <= k
                < model.errors[i].checks.len() ==> (#[trigger] model.errors[i].checks[k].remote_check_model matches Some(ri)
                ==> model.resolved[ri as int] is Some && known.contains(model.resolved[ri as int]->0)),
{
    assert forall|i: int| 0 <= i < model.errors.len() implies model.survives(#[trigger] model.errors[i]) == (
    !model.errors[i].probability.non_positive() && forall|j: int|
        0 <= j < model.errors[i].checks.len() ==> (#[trigger] model.errors[i].checks[j].remote_check_model matches Some(rj)
            ==> rj < model.check_bias.len() && model.check_bias[rj as int] is Some)) by {
        let error = model.errors[i];
        if model.survives(error) {
            assert forall|j: int| 0 <= j < model.errors[i].checks.len() implies (
            #[trigger] model.errors[i].checks[j].remote_check_model matches Some(rj) ==> rj < model.check_bias.len()
                && model.check_bias[rj as int] is Some) by {
                assert(!model.slot_dead(error.checks[j]));
            }
        } else if !error.probability.non_positive() {
            let j = choose|j: int| 0 <= j < error.checks.len() && model.slot_dead(#[trigger] error.checks[j]);
            assert(model.errors[i].checks[j].remote_check_model is Some);
        }
    }
    if model.resolvable(known) {
        assert forall|i: int, k: int|
            0 <= i < model.errors.len() && model.survives(model.errors[i]) && 0 <= k < model.errors[i].checks.len() implies (
        #[trigger] model.errors[i].checks[k].remote_check_model matches Some(ri) ==> model.resolved[ri as int] is Some
            && known.contains(model.resolved[ri as int]->0)) by {
            assert(model.check_ready(model.errors[i].checks[k], known));
        }
    } else {
        let (i, k) = choose|i: int, k: int|
            0 <= i < model.errors.len() && model.survives(model.errors[i]) && 0 <= k < model.errors[i].checks.len()
                && !model.check_ready(#[trigger] model.errors[i].checks[k], known);
        assert(model.errors[i].checks[k].remote_check_model is Some);
    }
}

/// Resolving slots writes the named slots of the error models with the named id, and
/// nothing else.
pub proof fn law_resolution_writes_named_slots(model: PendingSpec, eid: u64, ri: int, cid: u64, batch: Seq<Option<u64>>, i: int)
    requires
        0 <= ri,
        0 <= i < model.resolved.len(),
    ensures
        with_slot(model, eid, ri, cid) == (PendingSpec { resolved: with_slot(model, eid, ri, cid).resolved, ..model }),
        with_slots(model, eid, batch) == (PendingSpec { resolved: with_slots(model, eid, batch).resolved, ..model }),
        with_slot(model, eid, ri, cid).resolved.len() == model.resolved.len(),
        with_slots(model, eid, batch).resolved.len() == model.resolved.len(),
        model.eid == eid && i == ri ==> with_slot(model, eid, ri, cid).resolved[i] == Some(cid),
        model.eid != eid || i != ri ==> with_slot(model, eid, ri, cid).resolved[i] == model.resolved[i],
        model.eid == eid && i < batch.len() && batch[i] is Some ==> with_slots(model, eid, batch).resolved[i] == batch[i],
        model.eid != eid || i >= batch.len() || batch[i] is None ==> with_slots(model, eid, batch).resolved[i]
            == model.resolved[i],
{
}

} // verus!
