//! What the coordinators hand out of their records of the detector error model.
use crate::dem::{edges_view, DemDrain, DemPrediction};
use crate::dem_log::{law_sweep_shows_what_is_ready, with_slots, DemState, PendingSpec};
use crate::monolithic::MonolithicCoordinator;
use crate::network::ErrorModel;
use crate::window::WindowCoordinator;
use vstd::prelude::*;

verus! {

/// The log after the first `n` listed error models reported the references that they
/// had resolved; one that was cut short reports nothing.
pub open spec fn flushed(log: DemState, eids: Seq<u64>, models: Map<u64, ErrorModel>, n: int) -> DemState
    decreases n,
{
    if n <= 0 {
        log
    } else {
        let before = flushed(log, eids, models, n - 1);
        let model = models[eids[n - 1]];
        match model.expanded_remote_check_models {
            Some(list) => if list@.len() == model.modified_remote_check_models@.len() {
                before.after_remotes_resolved(eids[n - 1], list@)
            } else {
                before
            },
            None => before,
        }
    }
}

/// Something was taken out of a log.
pub open spec fn drained_from(before: DemState, after: DemState, drained: DemDrain) -> bool {
    &&& drained.detector_groups@ == before.detector_groups
    &&& edges_view(drained.edges@) == before.edges
    &&& after == (DemState { detector_groups: Seq::empty(), edges: Seq::empty(), ..before })
}

impl MonolithicCoordinator {
    /// The coordinator differs in its log only.
    pub open spec fn same_but_log(before: Self, after: Self) -> bool {
        after == Self { dem_log: after.dem_log, ..before }
    }

    /// Switches recording on or off.
    pub fn set_dem_enabled(&mut self, enabled: bool)
        requires
            old(self).wf(),
        ensures
            final(self).wf(),
            Self::same_but_log(*old(self), *final(self)),
            final(self).dem_log@ == (DemState { enabled, ..old(self).dem_log@ }),
    {
        self.dem_log.set_enabled(enabled);
    }

    /// Takes what became visible since the previous drain. A final drain first reads the
    /// references that the error models still in the program have resolved, in case a
    /// report of them was missed.
    pub fn drain_dem(&mut self, final_flush: bool) -> (drained: DemDrain)
        requires
            old(self).wf(),
        ensures
            final(self).wf(),
            Self::same_but_log(*old(self), *final(self)),
            drained_from(
                if final_flush && old(self).dem_log@.pending.len() > 0 {
                    flushed(
                        old(self).dem_log@,
                        old(self).error_models.id_seq(),
                        old(self).error_models@,
                        old(self).error_models.id_seq().len() as int,
                    )
                } else {
                    old(self).dem_log@
                },
                final(self).dem_log@,
                drained,
            ),
    {
        if final_flush && self.dem_log.has_pending() {
            let n: usize = self.error_models.len();
            let mut i: usize = 0;
            while i < n
                invariant
                    self.wf(),
                    Self::same_but_log(*old(self), *self),
                    n == self.error_models.id_seq().len(),
                    i <= n,
                    self.dem_log@ == flushed(
                        old(self).dem_log@,
                        old(self).error_models.id_seq(),
                        old(self).error_models@,
                        i as int,
                    ),
                decreases n - i,
            {
                let eid: u64 = self.error_models.id_at(i);
                proof {
                    self.error_models.lemma_id_seq();
                    assert(self.error_models.id_seq().contains(eid));
                }
                let model = self.error_models.get(eid).unwrap();
                if let Some(list) = &model.expanded_remote_check_models {
                    self.dem_log.on_remotes_resolved_guarded(
                        eid,
                        list.as_slice(),
                        model.modified_remote_check_models.len(),
                    );
                }
                i += 1;
            }
        }
        self.dem_log.drain()
    }

    /// Takes every recorded report.
    pub fn drain_dem_predictions(&mut self) -> (predictions: Vec<DemPrediction>)
        requires
            old(self).wf(),
        ensures
            final(self).wf(),
            Self::same_but_log(*old(self), *final(self)),
            predictions@ == old(self).dem_log@.predictions,
            final(self).dem_log@ == (DemState { predictions: Seq::empty(), ..old(self).dem_log@ }),
    {
        self.dem_log.drain_predictions()
    }

    /// Takes the recorded reports of one gadget; the others stay, in order.
    pub fn drain_dem_predictions_for(&mut self, gid: u64) -> (predictions: Vec<DemPrediction>)
        requires
            old(self).wf(),
        ensures
            final(self).wf(),
            Self::same_but_log(*old(self), *final(self)),
            predictions@ == old(self).dem_log@.predictions.filter(|p: DemPrediction| p.gid == gid),
            final(self).dem_log@ == (DemState {
                predictions: old(self).dem_log@.predictions.filter(|p: DemPrediction| p.gid != gid),
                ..old(self).dem_log@
            }),
    {
        self.dem_log.drain_predictions_for(gid)
    }
}

impl WindowCoordinator {
    /// The coordinator differs in its log only.
    pub open spec fn same_but_log(before: Self, after: Self) -> bool {
        after == Self { dem_log: after.dem_log, ..before }
    }

    /// Switches recording on or off.
    pub fn set_dem_enabled(&mut self, enabled: bool)
        requires
            old(self).wf(),
        ensures
            final(self).wf(),
            Self::same_but_log(*old(self), *final(self)),
            final(self).dem_log@ == (DemState { enabled, ..old(self).dem_log@ }),
    {
        self.dem_log.set_enabled(enabled);
    }

    /// Takes what became visible since the previous drain. References are resolved when
    /// an instruction is executed, so a final drain reads nothing more.
    pub fn drain_dem(&mut self, _final_flush: bool) -> (drained: DemDrain)
        requires
            old(self).wf(),
        ensures
            final(self).wf(),
            Self::same_but_log(*old(self), *final(self)),
            drained_from(old(self).dem_log@, final(self).dem_log@, drained),
    {
        self.dem_log.drain()
    }

    /// Takes every recorded report.
    pub fn drain_dem_predictions(&mut self) -> (predictions: Vec<DemPrediction>)
        requires
            old(self).wf(),
        ensures
            final(self).wf(),
            Self::same_but_log(*old(self), *final(self)),
            predictions@ == old(self).dem_log@.predictions,
            final(self).dem_log@ == (DemState { predictions: Seq::empty(), ..old(self).dem_log@ }),
    {
        self.dem_log.drain_predictions()
    }

    /// Takes the recorded reports of one gadget; the others stay, in order.
    pub fn drain_dem_predictions_for(&mut self, gid: u64) -> (predictions: Vec<DemPrediction>)
        requires
            old(self).wf(),
        ensures
            final(self).wf(),
            Self::same_but_log(*old(self), *final(self)),
            predictions@ == old(self).dem_log@.predictions.filter(|p: DemPrediction| p.gid == gid),
            final(self).dem_log@ == (DemState {
                predictions: old(self).dem_log@.predictions.filter(|p: DemPrediction| p.gid != gid),
                ..old(self).dem_log@
            }),
    {
        self.dem_log.drain_predictions_for(gid)
    }
}

/// A drain hands out everything that became visible and leaves nothing of it; what waits,
/// and the reports, stay.
pub proof fn law_drain_takes_everything_visible(before: DemState, after: DemState, drained: DemDrain)
    requires
        drained_from(before, after, drained),
    ensures
        drained.detector_groups@ == before.detector_groups,
        edges_view(drained.edges@) == before.edges,
        after.detector_groups.len() == 0,
        after.edges.len() == 0,
        after.pending == before.pending,
        after.predictions == before.predictions,
        after.known_cids == before.known_cids,
        after.next_seq == before.next_seq,
        after.enabled == before.enabled,
{
}

/// After a flush, what still waits of an error model has every slot that its error model
/// had resolved.
pub proof fn law_flush_reports_all_resolved_slots(
    log: DemState,
    eids: Seq<u64>,
    models: Map<u64, ErrorModel>,
    n: int,
    k: int,
    p: int,
    i: int,
)
    requires
        log.enabled,
        0 <= k < n <= eids.len(),
        models[eids[k]].expanded_remote_check_models is Some,
        models[eids[k]].expanded_remote_check_models->0@.len() == models[eids[k]].modified_remote_check_models@.len(),
        forall|a: int, b: int| 0 <= a < b < eids.len() ==> eids[a] != eids[b],
        0 <= p < flushed(log, eids, models, n).pending.len(),
        flushed(log, eids, models, n).pending[p].eid == eids[k],
        0 <= i < flushed(log, eids, models, n).pending[p].resolved.len(),
        i < models[eids[k]].expanded_remote_check_models->0@.len(),
        models[eids[k]].expanded_remote_check_models->0@[i] is Some,
    ensures
        flushed(log, eids, models, n).pending[p].resolved[i] == models[eids[k]].expanded_remote_check_models->0@[i],
    decreases n,
{
    let before = flushed(log, eids, models, n - 1);
    let model = models[eids[n - 1]];
    lemma_flush_keeps_enabled(log, eids, models, n - 1);
    if model.expanded_remote_check_models is Some && model.expanded_remote_check_models->0@.len()
        == model.modified_remote_check_models@.len() {
        let batch = model.expanded_remote_check_models->0@;
        let f = |m: PendingSpec| with_slots(m, eids[n - 1], batch);
        let mapped = DemState { pending: before.pending.map_values(f), ..before };
        law_sweep_shows_what_is_ready(mapped);
        let waits = |m: PendingSpec| !m.resolvable(mapped.known_cids);
        let m = mapped.pending.filter(waits)[p];
        assert(flushed(log, eids, models, n).pending[p] == m);
        assert(mapped.pending.filter(waits).contains(m));
        mapped.pending.lemma_filter_contains_rev(waits, m);
        let q = mapped.pending.index_of(m);
        assert(m == with_slots(before.pending[q], eids[n - 1], batch));
        if k < n - 1 {
            assert(eids[k] != eids[n - 1]);
            assert(m == before.pending[q]);
            law_flush_reports_all_resolved_slots(log, eids, models, n - 1, k, q, i);
        }
    } else {
        assert(k < n - 1);
        law_flush_reports_all_resolved_slots(log, eids, models, n - 1, k, p, i);
    }
}

proof fn lemma_flush_keeps_enabled(log: DemState, eids: Seq<u64>, models: Map<u64, ErrorModel>, n: int)
    requires
        log.enabled,
    ensures
        flushed(log, eids, models, n).enabled,
    decreases n,
{
    if n > 0 {
        lemma_flush_keeps_enabled(log, eids, models, n - 1);
    }
}

} // verus!
