//! Resolving the references of single models, as soon as what they lead to is there.
use crate::monolithic::MonolithicCoordinator;
use crate::monolithic_decode::{check_model_expanded, error_model_expanded};
use crate::network::{CheckModel, ErrorModel};
use crate::remote::{
    check_model_slots, expand_remote_check_models, expand_remote_gadgets, expands_check_models, expands_gadgets, gadget_slots,
    law_resolved_check_models_are_the_bound_ones, law_resolved_gadgets_are_the_reached_ones, reach_of, Reach, Target,
    Unresolved,
};
use crate::subgraph::{attached_eids, bound_cids, find_part, is_subgraph};
use vstd::prelude::*;

verus! {

/// How far the references of a model are resolved.
#[derive(Debug, Clone, Copy, PartialEq, Eq, Structural)]
pub enum ExpandStep {
    /// the model, or the check model that it belongs to, does not exist
    Gone,
    /// a reference is not resolved
    Waits(Unresolved),
    /// all references are resolved
    Expanded,
}

/// What a step on a check model does.
pub open spec fn check_model_stepped(before: MonolithicCoordinator, after: MonolithicCoordinator, cid: u64, step: ExpandStep) -> bool {
    let model = before.check_models@[cid];
    &&& after.error_models@ == before.error_models@
    &&& after.dem_log@ == before.dem_log@
    &&& match step {
        ExpandStep::Gone => {
            &&& !before.check_models@.contains_key(cid)
            &&& after.check_models@ == before.check_models@
        },
        ExpandStep::Waits(why) => {
            &&& before.check_models@.contains_key(cid)
            &&& expands_gadgets(
                before.gadgets@,
                gadget_slots(model.modified_remote_gadgets@),
                model.instance.gid,
                Err(why),
            )
            &&& after.check_models@ == before.check_models@
        },
        ExpandStep::Expanded => {
            &&& before.check_models@.contains_key(cid)
            &&& check_model_expanded(before.gadgets@, model, after.check_models@[cid])
            &&& after.check_models@ == before.check_models@.insert(cid, after.check_models@[cid])
        },
    }
}

/// What a step on an error model does.
pub open spec fn error_model_stepped(before: MonolithicCoordinator, after: MonolithicCoordinator, eid: u64, step: ExpandStep) -> bool {
    let model = before.error_models@[eid];
    let owner = before.check_models@[model.instance.cid];
    &&& after.check_models@ == before.check_models@
    &&& match step {
        ExpandStep::Gone => {
            &&& !(before.error_models@.contains_key(eid) && before.check_models@.contains_key(model.instance.cid))
            &&& after.error_models@ == before.error_models@
            &&& after.dem_log@ == before.dem_log@
        },
        ExpandStep::Waits(why) => {
            &&& before.error_models@.contains_key(eid)
            &&& before.check_models@.contains_key(model.instance.cid)
            &&& expands_check_models(
                before.gadgets@,
                check_model_slots(model.modified_remote_check_models@),
                owner.instance.gid,
                Err(why),
            )
            &&& after.error_models@ == before.error_models@
            &&& after.dem_log@ == before.dem_log@
        },
        ExpandStep::Expanded => {
            &&& before.error_models@.contains_key(eid)
            &&& before.check_models@.contains_key(model.instance.cid)
            &&& error_model_expanded(before.gadgets@, owner.instance.gid, model, after.error_models@[eid])
            &&& after.error_models@ == before.error_models@.insert(eid, after.error_models@[eid])
            &&& after.dem_log@ == before.dem_log@.after_remotes_resolved(
                eid,
                after.error_models@[eid].expanded_remote_check_models->0@,
            )
        },
    }
}

/// The listed models have all their references resolved.
pub open spec fn all_expanded(
    check_models: Map<u64, CheckModel>,
    error_models: Map<u64, ErrorModel>,
    cids: Seq<u64>,
    eids: Seq<u64>,
) -> bool {
    &&& forall|i: int| 0 <= i < cids.len() ==> check_models[#[trigger] cids[i]].expanded_remote_gadgets is Some
    &&& forall|i: int| 0 <= i < eids.len() ==> error_models[#[trigger] eids[i]].expanded_remote_check_models is Some
}

impl MonolithicCoordinator {
    /// Everything but the models and the log is as before.
    pub open spec fn same_but_models(before: Self, after: Self) -> bool {
        &&& after.config == before.config
        &&& after.types == before.types
        &&& after.gadgets == before.gadgets
        &&& after.pending_subgraphs == before.pending_subgraphs
        &&& after.gid_to_union_index == before.gid_to_union_index
        &&& after.next_gid == before.next_gid
        &&& after.next_cid == before.next_cid
        &&& after.next_eid == before.next_eid
    }

    /// Resolves the remote gadgets of a check model, or says what stops it.
    pub fn expand_check_model(&mut self, cid: u64) -> (step: ExpandStep)
        requires
            old(self).wf(),
        ensures
            final(self).wf(),
            Self::same_but_models(*old(self), *final(self)),
            check_model_stepped(*old(self), *final(self), cid, step),
    {
        let Some(model) = self.check_models.get(cid) else {
            return ExpandStep::Gone;
        };
        match expand_remote_gadgets(&self.gadgets, &model.modified_remote_gadgets, model.instance.gid) {
            Ok(list) => {
                self.check_models.get_mut(cid).expanded_remote_gadgets = Some(list);
                ExpandStep::Expanded
            },
            Err(why) => ExpandStep::Waits(why),
        }
    }

    /// Resolves the remote check models of an error model and reports them to the log,
    /// or says what stops it.
    pub fn expand_error_model(&mut self, eid: u64) -> (step: ExpandStep)
        requires
            old(self).wf(),
        ensures
            final(self).wf(),
            Self::same_but_models(*old(self), *final(self)),
            error_model_stepped(*old(self), *final(self), eid, step),
    {
        let Some(model) = self.error_models.get(eid) else {
            return ExpandStep::Gone;
        };
        let Some(owner) = self.check_models.get(model.instance.cid) else {
            return ExpandStep::Gone;
        };
        match expand_remote_check_models(&self.gadgets, &model.modified_remote_check_models, owner.instance.gid) {
            Ok(list) => {
                self.dem_log.on_remotes_resolved(eid, list.as_slice());
                self.error_models.get_mut(eid).expanded_remote_check_models = Some(list);
                ExpandStep::Expanded
            },
            Err(why) => ExpandStep::Waits(why),
        }
    }

    /// Whether the models of the part around a gadget have all their references resolved.
    /// `None` if an output in the part is not connected or something is missing.
    pub fn part_expanded(&self, gid: u64) -> (ready: Option<bool>)
        requires
            self.wf(),
        ensures
            ready is Some <==> exists|gids: Seq<u64>| #[trigger]
                is_subgraph(self.gadgets@, self.check_models@, self.error_models@, gid, gids),
            ready matches Some(yes) ==> forall|gids: Seq<u64>| #[trigger]
                is_subgraph(self.gadgets@, self.check_models@, self.error_models@, gid, gids) ==> yes == all_expanded(
                    self.check_models@,
                    self.error_models@,
                    bound_cids(self.gadgets@, gids),
                    attached_eids(self.check_models@, bound_cids(self.gadgets@, gids)),
                ),
    {
        let Some((_, cids, eids)) = find_part(&self.gadgets, &self.check_models, &self.error_models, gid) else {
            return None;
        };
        let mut yes = true;
        let mut i: usize = 0;
        while i < cids.len()
            invariant
                self.wf(),
                i <= cids@.len(),
                forall|k: int| 0 <= k < cids@.len() ==> self.check_models@.contains_key(#[trigger] cids@[k]),
                yes == forall|k: int| 0 <= k < i ==> self.check_models@[#[trigger] cids@[k]].expanded_remote_gadgets is Some,
            decreases cids@.len() - i,
        {
            let known = self.check_models.get(cids[i]).unwrap().expanded_remote_gadgets.is_some();
            if !known {
                assert(self.check_models@[cids@[i as int]].expanded_remote_gadgets is None);
                yes = false;
            }
            i += 1;
        }
        let ghost first = yes;
        let mut i: usize = 0;
        while i < eids.len()
            invariant
                self.wf(),
                i <= eids@.len(),
                forall|k: int| 0 <= k < eids@.len() ==> self.error_models@.contains_key(#[trigger] eids@[k]),
                yes == (first && forall|k: int|
                    0 <= k < i ==> self.error_models@[#[trigger] eids@[k]].expanded_remote_check_models is Some),
            decreases eids@.len() - i,
        {
            let known = self.error_models.get(eids[i]).unwrap().expanded_remote_check_models.is_some();
            if !known {
                assert(self.error_models@[eids@[i as int]].expanded_remote_check_models is None);
                yes = false;
            }
            i += 1;
        }
        Some(yes)
    }
}

/// An expanded check model has, slot by slot, the gadget that the slot leads to; a removed
/// slot has none. Nothing else is changed.
pub proof fn law_expanded_check_model_has_its_gadgets(
    before: MonolithicCoordinator,
    after: MonolithicCoordinator,
    cid: u64,
    ri: int,
)
    requires
        check_model_stepped(before, after, cid, ExpandStep::Expanded),
        0 <= ri < before.check_models@[cid].modified_remote_gadgets@.len(),
    ensures
        ({
            let model = before.check_models@[cid];
            let list = after.check_models@[cid].expanded_remote_gadgets->0@;
            &&& after.check_models@[cid].expanded_remote_gadgets is Some
            &&& list.len() == model.modified_remote_gadgets@.len()
            &&& list[ri] is None <==> model.modified_remote_gadgets@[ri] is None
            &&& list[ri] is Some ==> reach_of(
                before.gadgets@,
                gadget_slots(model.modified_remote_gadgets@),
                model.instance.gid,
                ri,
            ) == Reach::To(Target::Gadget(list[ri]->0))
        }),
        after.check_models@[cid].instance == before.check_models@[cid].instance,
        after.check_models@[cid].attaching_eid_vec == before.check_models@[cid].attaching_eid_vec,
        forall|c: u64| #[trigger] before.check_models@.contains_key(c) && c != cid ==> after.check_models@[c]
            == before.check_models@[c],
{
    let model = before.check_models@[cid];
    let list = after.check_models@[cid].expanded_remote_gadgets->0@;
    law_resolved_gadgets_are_the_reached_ones(
        before.gadgets@,
        gadget_slots(model.modified_remote_gadgets@),
        model.instance.gid,
        list,
        ri,
    );
}

/// An expanded error model has, slot by slot, the check model that the slot names or the one
/// bound to the gadget that the slot leads to; a removed slot has none.
pub proof fn law_expanded_error_model_has_its_check_models(
    before: MonolithicCoordinator,
    after: MonolithicCoordinator,
    eid: u64,
    ri: int,
)
    requires
        error_model_stepped(before, after, eid, ExpandStep::Expanded),
        0 <= ri < before.error_models@[eid].modified_remote_check_models@.len(),
    ensures
        ({
            let model = before.error_models@[eid];
            let list = after.error_models@[eid].expanded_remote_check_models->0@;
            let found = reach_of(
                before.gadgets@,
                check_model_slots(model.modified_remote_check_models@),
                before.check_models@[model.instance.cid].instance.gid,
                ri,
            );
            &&& after.error_models@[eid].expanded_remote_check_models is Some
            &&& list.len() == model.modified_remote_check_models@.len()
            &&& list[ri] is None <==> model.modified_remote_check_models@[ri] is None
            &&& found matches Reach::To(Target::CheckModel(cid)) ==> list[ri] == Some(cid)
            &&& found matches Reach::To(Target::Gadget(gid)) ==> list[ri] == before.gadgets@[gid].binding_cid
        }),
        after.error_models@[eid].instance == before.error_models@[eid].instance,
        forall|e: u64| #[trigger] before.error_models@.contains_key(e) && e != eid ==> after.error_models@[e]
            == before.error_models@[e],
{
    let model = before.error_models@[eid];
    law_resolved_check_models_are_the_bound_ones(
        before.gadgets@,
        check_model_slots(model.modified_remote_check_models@),
        before.check_models@[model.instance.cid].instance.gid,
        after.error_models@[eid].expanded_remote_check_models->0@,
        ri,
    );
}

} // verus!
