//! How the syndrome of a check model becomes known: once its remote gadgets are
//! connected and all outcomes are there.
use crate::bin::checks_view;
use crate::detectors::{are_detectors, check_values, detector_value, detectors_known};
use crate::network::{CheckModel, Gadget};
use crate::registry::Registry;
use crate::remote::{expand_remote_gadgets, expands_gadgets, gadget_slots, Unresolved};
use crate::window::WindowCoordinator;
use vstd::prelude::*;

verus! {

/// What became of the syndrome of a check model.
pub enum SyndromeStep {
    /// the check model, its type or one of its gadgets does not exist
    Gone,
    /// a remote gadget is not resolved
    Waits(Unresolved),
    /// these gadgets have no outcomes yet
    WaitsForOutcomes(Vec<u64>),
    /// a check reads an outcome that its gadget does not have
    Invalid,
    /// the syndrome is stored
    Stored,
}

/// A gadget whose outcomes the syndrome of a check model of gadget `gid` needs.
pub open spec fn is_needed(gid: u64, expanded: Seq<Option<u64>>, g: u64) -> bool {
    g == gid || expanded.contains(Some(g))
}

/// The gadgets among those that have no outcomes.
fn without_outcomes(gadgets: &Registry<Gadget>, gids: &Vec<u64>) -> (missing: Option<Vec<u64>>)
    requires
        gadgets.wf(),
    ensures
        missing is Some <==> forall|i: int| 0 <= i < gids@.len() ==> gadgets@.contains_key(#[trigger] gids@[i]),
        missing matches Some(list) ==> forall|g: u64| #[trigger]
            list@.contains(g) <==> gids@.contains(g) && gadgets@[g].outcomes is None,
{
    let mut list: Vec<u64> = Vec::new();
    let mut i: usize = 0;
    while i < gids.len()
        invariant
            i <= gids@.len(),
            gadgets.wf(),
            forall|k: int| 0 <= k < i ==> gadgets@.contains_key(#[trigger] gids@[k]),
            forall|g: u64| #[trigger]
                list@.contains(g) <==> gids@.take(i as int).contains(g) && gadgets@[g].outcomes is None,
        decreases gids@.len() - i,
    {
        let gid: u64 = gids[i];
        let ghost before = list@;
        let Some(gadget) = gadgets.get(gid) else {
            return None;
        };
        let lacks = gadget.outcomes.is_none();
        if lacks {
            list.push(gid);
        }
        proof {
            assert(gids@.take(i as int + 1) =~= gids@.take(i as int).push(gid));
            assert forall|g: u64| #[trigger] list@.contains(g) <==> gids@.take(i as int + 1).contains(g) && gadgets@[g].outcomes is None by {
                lemma_pushed(gids@.take(i as int), gid, g);
                if lacks {
                    lemma_pushed(before, gid, g);
                }
            }
        }
        i += 1;
    }
    assert(gids@.take(gids@.len() as int) =~= gids@);
    Some(list)
}

proof fn lemma_pushed(list: Seq<u64>, x: u64, g: u64)
    ensures
        list.push(x).contains(g) <==> list.contains(g) || g == x,
{
    let more = list.push(x);
    if list.contains(g) {
        assert(more[list.index_of(g)] == g);
    }
    if g == x {
        assert(more[list.len() as int] == g);
    }
    if more.contains(g) {
        let k = more.index_of(g);
        if k < list.len() {
            assert(list[k] == g);
        }
    }
}

/// The gadgets whose outcomes are needed, as a list.
fn needed_gadgets(gid: u64, expanded: &Vec<Option<u64>>) -> (gids: Vec<u64>)
    ensures
        forall|g: u64| #[trigger] gids@.contains(g) <==> is_needed(gid, expanded@, g),
{
    let mut gids: Vec<u64> = Vec::new();
    gids.push(gid);
    let mut i: usize = 0;
    proof {
        assert forall|g: u64| #[trigger] gids@.contains(g) <==> is_needed(gid, expanded@.take(0), g) by {
            assert(gids@ =~= Seq::<u64>::empty().push(gid));
            lemma_pushed(Seq::empty(), gid, g);
        }
    }
    while i < expanded.len()
        invariant
            i <= expanded@.len(),
            forall|g: u64| #[trigger] gids@.contains(g) <==> is_needed(gid, expanded@.take(i as int), g),
        decreases expanded@.len() - i,
    {
        let ghost before = gids@;
        let ghost part = expanded@.take(i as int);
        if let Some(remote) = expanded[i] {
            gids.push(remote);
        }
        proof {
            let more = expanded@.take(i as int + 1);
            assert(more =~= part.push(expanded@[i as int]));
            assert forall|g: u64| #[trigger] gids@.contains(g) <==> is_needed(gid, more, g) by {
                assert(before.contains(g) <==> is_needed(gid, part, g));
                if part.contains(Some(g)) {
                    assert(more[part.index_of(Some(g))] == Some(g));
                }
                if more.contains(Some(g)) {
                    let k = more.index_of(Some(g));
                    if k < part.len() {
                        assert(part[k] == Some(g));
                    }
                }
                if expanded@[i as int] is Some {
                    lemma_pushed(before, expanded@[i as int]->0, g);
                    assert(more[i as int] == expanded@[i as int]);
                }
            }
        }
        i += 1;
    }
    assert(expanded@.take(expanded@.len() as int) =~= expanded@);
    gids
}

/// The slots of a check model with the gadgets that they stand for.
pub open spec fn with_expansion(check_model: CheckModel, expanded: Vec<Option<u64>>) -> CheckModel {
    CheckModel { expanded_remote_gadgets: Some(expanded), ..check_model }
}

/// Everything that the syndrome of a check model needs exists.
pub open spec fn parts_exist(c: WindowCoordinator, cid: u64, expanded: Seq<Option<u64>>) -> bool {
    &&& c.types@.check_model_types.contains_key(c.check_models@[cid].instance.ctype)
    &&& forall|g: u64| #[trigger] is_needed(c.check_models@[cid].instance.gid, expanded, g) ==> c.gadgets@.contains_key(g)
}

/// What a step towards the syndrome of a check model does.
pub open spec fn syndrome_stepped(before: WindowCoordinator, after: WindowCoordinator, cid: u64, step: SyndromeStep) -> bool {
    let check_model = before.check_models@[cid];
    let slots = gadget_slots(check_model.modified_remote_gadgets@);
    let owner = before.gadgets@[check_model.instance.gid];
    let checks = checks_view(before.types@.check_model_types[check_model.instance.ctype].checks@);
    &&& step !is Stored ==> after.check_models@ == before.check_models@
    &&& match step {
        SyndromeStep::Gone => {
            ||| !before.check_models@.contains_key(cid)
            ||| exists|expanded: Vec<Option<u64>>| #[trigger]
                expands_gadgets(before.gadgets@, slots, check_model.instance.gid, Ok(expanded@)) && !parts_exist(
                    before,
                    cid,
                    expanded@,
                )
        },
        SyndromeStep::Waits(why) => {
            &&& before.check_models@.contains_key(cid)
            &&& expands_gadgets(before.gadgets@, slots, check_model.instance.gid, Err(why))
        },
        SyndromeStep::WaitsForOutcomes(list) => {
            &&& before.check_models@.contains_key(cid)
            &&& list@.len() > 0
            &&& exists|expanded: Vec<Option<u64>>| #[trigger]
                expands_gadgets(before.gadgets@, slots, check_model.instance.gid, Ok(expanded@)) && parts_exist(
                    before,
                    cid,
                    expanded@,
                ) && forall|g: u64| #[trigger]
                    list@.contains(g) <==> is_needed(check_model.instance.gid, expanded@, g) && before.gadgets@[g].outcomes is None
        },
        SyndromeStep::Invalid => {
            &&& before.check_models@.contains_key(cid)
            &&& exists|expanded: Vec<Option<u64>>| #[trigger]
                expands_gadgets(before.gadgets@, slots, check_model.instance.gid, Ok(expanded@)) && parts_exist(
                    before,
                    cid,
                    expanded@,
                ) && !detectors_known(before.gadgets@, owner, with_expansion(check_model, expanded), checks)
        },
        SyndromeStep::Stored => {
            &&& before.check_models@.contains_key(cid)
            &&& after.check_models@[cid].expanded_remote_gadgets matches Some(expanded)
            &&& after.check_models@[cid].syndrome matches Some(syndrome)
            &&& after.check_models@ == before.check_models@.insert(
                cid,
                CheckModel { expanded_remote_gadgets: Some(expanded), syndrome: Some(syndrome), ..check_model },
            )
            &&& expands_gadgets(before.gadgets@, slots, check_model.instance.gid, Ok(expanded@))
            &&& parts_exist(before, cid, expanded@)
            &&& forall|g: u64| #[trigger]
                is_needed(check_model.instance.gid, expanded@, g) ==> before.gadgets@[g].outcomes is Some
            &&& syndrome.wf()
            &&& are_detectors(before.gadgets@, owner, with_expansion(check_model, expanded), checks, syndrome@)
        },
    }
}

/// A check model bound to one of the listed gadgets.
pub open spec fn is_bound_to(gadgets: Map<u64, Gadget>, gids: Seq<u64>, cid: u64) -> bool {
    exists|i: int| 0 <= i < gids.len() && gadgets.contains_key(#[trigger] gids[i]) && gadgets[gids[i]].binding_cid == Some(cid)
}

impl WindowCoordinator {
    /// The check models bound to the listed gadgets; a gadget that does not exist is
    /// passed over.
    pub fn check_models_of(&self, gids: &Vec<u64>) -> (cids: Vec<u64>)
        requires
            self.wf(),
        ensures
            forall|cid: u64| #[trigger] cids@.contains(cid) <==> is_bound_to(self.gadgets@, gids@, cid),
    {
        let mut cids: Vec<u64> = Vec::new();
        let mut i: usize = 0;
        while i < gids.len()
            invariant
                self.wf(),
                i <= gids@.len(),
                forall|cid: u64| #[trigger] cids@.contains(cid) <==> is_bound_to(self.gadgets@, gids@.take(i as int), cid),
            decreases gids@.len() - i,
        {
            let gid: u64 = gids[i];
            let ghost before = cids@;
            let ghost part = gids@.take(i as int);
            let bound: Option<u64> = match self.gadgets.get(gid) {
                Some(gadget) => gadget.binding_cid,
                None => None,
            };
            if let Some(cid) = bound {
                cids.push(cid);
            }
            proof {
                let more = gids@.take(i as int + 1);
                assert(more =~= part.push(gid));
                assert forall|cid: u64| #[trigger] cids@.contains(cid) <==> is_bound_to(self.gadgets@, more, cid) by {
                    if bound is Some {
                        lemma_pushed(before, bound->0, cid);
                    }
                    if is_bound_to(self.gadgets@, part, cid) {
                        let k = choose|k: int|
                            0 <= k < part.len() && self.gadgets@.contains_key(#[trigger] part[k])
                                && self.gadgets@[part[k]].binding_cid == Some(cid);
                        assert(more[k] == part[k]);
                    }
                    if bound == Some(cid) {
                        assert(more[i as int] == gid);
                    }
                    if is_bound_to(self.gadgets@, more, cid) {
                        let k = choose|k: int|
                            0 <= k < more.len() && self.gadgets@.contains_key(#[trigger] more[k])
                                && self.gadgets@[more[k]].binding_cid == Some(cid);
                        if k < i {
                            assert(part[k] == more[k]);
                        }
                    }
                }
            }
            i += 1;
        }
        assert(gids@.take(gids@.len() as int) =~= gids@);
        cids
    }

    /// The listed check models that have no syndrome yet.
    pub fn without_syndrome(&self, cids: &Vec<u64>) -> (missing: Vec<u64>)
        requires
            self.wf(),
        ensures
            forall|cid: u64| #[trigger]
                missing@.contains(cid) <==> cids@.contains(cid) && self.check_models@.contains_key(cid)
                    && self.check_models@[cid].syndrome is None,
    {
        let mut missing: Vec<u64> = Vec::new();
        let mut i: usize = 0;
        while i < cids.len()
            invariant
                self.wf(),
                i <= cids@.len(),
                forall|cid: u64| #[trigger]
                    missing@.contains(cid) <==> cids@.take(i as int).contains(cid) && self.check_models@.contains_key(cid)
                        && self.check_models@[cid].syndrome is None,
            decreases cids@.len() - i,
        {
            let id: u64 = cids[i];
            let ghost before = missing@;
            let lacks = match self.check_models.get(id) {
                Some(model) => model.syndrome.is_none(),
                None => false,
            };
            if lacks {
                missing.push(id);
            }
            proof {
                assert(cids@.take(i as int + 1) =~= cids@.take(i as int).push(id));
                assert forall|cid: u64| #[trigger] missing@.contains(cid) <==> cids@.take(i as int + 1).contains(cid)
                    && self.check_models@.contains_key(cid) && self.check_models@[cid].syndrome is None by {
                    lemma_pushed(cids@.take(i as int), id, cid);
                    if lacks {
                        lemma_pushed(before, id, cid);
                    }
                }
            }
            i += 1;
        }
        assert(cids@.take(cids@.len() as int) =~= cids@);
        missing
    }

    /// Computes and stores the syndrome of a check model, if everything that it needs is
    /// there; else says what is missing.
    pub fn update_syndrome(&mut self, cid: u64) -> (step: SyndromeStep)
        requires
            old(self).wf(),
        ensures
            final(self).wf(),
            final(self).config == old(self).config,
            final(self).types@ == old(self).types@,
            final(self).gadgets@ == old(self).gadgets@,
            final(self).error_models@ == old(self).error_models@,
            final(self).referral_state() == old(self).referral_state(),
            final(self).next_gid == old(self).next_gid,
            final(self).next_cid == old(self).next_cid,
            final(self).next_eid == old(self).next_eid,
            syndrome_stepped(*old(self), *final(self), cid, step),
    {
        let Some(check_model) = self.check_models.get(cid) else {
            return SyndromeStep::Gone;
        };
        let gid: u64 = check_model.instance.gid;
        let ctype: u64 = check_model.instance.ctype;
        let expanded = match expand_remote_gadgets(&self.gadgets, &check_model.modified_remote_gadgets, gid) {
            Ok(expanded) => expanded,
            Err(why) => {
                return SyndromeStep::Waits(why);
            },
        };
        let ghost slots = gadget_slots(self.check_models@[cid].modified_remote_gadgets@);
        assert(expands_gadgets(self.gadgets@, slots, gid, Ok(expanded@)));
        let needed = needed_gadgets(gid, &expanded);
        let Some(missing) = without_outcomes(&self.gadgets, &needed) else {
            proof {
                let i = choose|i: int| 0 <= i < needed@.len() && !self.gadgets@.contains_key(#[trigger] needed@[i]);
                assert(needed@.contains(needed@[i]));
                assert(is_needed(gid, expanded@, needed@[i]));
                assert(!parts_exist(*self, cid, expanded@));
            }
            return SyndromeStep::Gone;
        };
        proof {
            assert forall|g: u64| #[trigger] is_needed(gid, expanded@, g) implies self.gadgets@.contains_key(g) by {
                assert(needed@.contains(g));
                assert(needed@[needed@.index_of(g)] == g);
            }
        }
        if !self.types.check_model_types.contains_key(ctype) {
            assert(!parts_exist(*self, cid, expanded@));
            return SyndromeStep::Gone;
        }
        assert(parts_exist(*self, cid, expanded@));
        if missing.len() > 0 {
            proof {
                assert forall|g: u64| #[trigger] missing@.contains(g) <==> is_needed(gid, expanded@, g)
                    && self.gadgets@[g].outcomes is None by {
                    assert(needed@.contains(g) <==> is_needed(gid, expanded@, g));
                }
            }
            return SyndromeStep::WaitsForOutcomes(missing);
        }
        proof {
            assert forall|g: u64| #[trigger] is_needed(gid, expanded@, g) implies self.gadgets@[g].outcomes is Some by {
                assert(needed@.contains(g));
                assert(!missing@.contains(g));
            }
            assert(is_needed(gid, expanded@, gid));
        }
        self.finish_syndrome(cid, expanded)
    }

    /// Computes the syndrome from the gadgets that the slots stand for.
    fn finish_syndrome(&mut self, cid: u64, expanded: Vec<Option<u64>>) -> (step: SyndromeStep)
        requires
            old(self).wf(),
            old(self).check_models@.contains_key(cid),
            old(self).gadgets@.contains_key(old(self).check_models@[cid].instance.gid),
            old(self).types@.check_model_types.contains_key(old(self).check_models@[cid].instance.ctype),
            expands_gadgets(
                old(self).gadgets@,
                gadget_slots(old(self).check_models@[cid].modified_remote_gadgets@),
                old(self).check_models@[cid].instance.gid,
                Ok(expanded@),
            ),
            parts_exist(*old(self), cid, expanded@),
            forall|g: u64| #[trigger]
                is_needed(old(self).check_models@[cid].instance.gid, expanded@, g) ==> old(self).gadgets@[g].outcomes is Some,
        ensures
            final(self).wf(),
            final(self).config == old(self).config,
            final(self).types@ == old(self).types@,
            final(self).gadgets@ == old(self).gadgets@,
            final(self).error_models@ == old(self).error_models@,
            final(self).referral_state() == old(self).referral_state(),
            final(self).next_gid == old(self).next_gid,
            final(self).next_cid == old(self).next_cid,
            final(self).next_eid == old(self).next_eid,
            step is Stored || step is Invalid,
            syndrome_stepped(*old(self), *final(self), cid, step),
    {
        let ghost before = *self;
        let ghost given = expanded;
        let ghost old_model = self.check_models@[cid];
        let mut previous: Option<Vec<Option<u64>>> = Some(expanded);
        {
            let check_model = self.check_models.get_mut(cid);
            core::mem::swap(&mut check_model.expanded_remote_gadgets, &mut previous);
        }
        assert(self.check_models@[cid] == with_expansion(old_model, given));
        let check_model = self.check_models.get(cid).unwrap();
        let gadget = self.gadgets.get(check_model.instance.gid).unwrap();
        let check_model_type = self.types.check_model_types.get(check_model.instance.ctype).unwrap();
        match check_values(&self.gadgets, gadget, check_model, &check_model_type.checks) {
            Some(syndrome) => {
                self.check_models.get_mut(cid).syndrome = Some(syndrome);
                proof {
                    assert(self.check_models@ =~= before.check_models@.insert(
                        cid,
                        CheckModel { expanded_remote_gadgets: Some(given), syndrome: Some(syndrome), ..old_model },
                    ));
                    assert(crate::referrals::referring_of(self.check_models@) =~= crate::referrals::referring_of(
                        before.check_models@,
                    ));
                }
                SyndromeStep::Stored
            },
            None => {
                self.check_models.get_mut(cid).expanded_remote_gadgets = previous;
                proof {
                    assert(self.check_models@[cid] == old_model);
                    assert(self.check_models@ =~= before.check_models@);
                    assert(expands_gadgets(
                        before.gadgets@,
                        gadget_slots(old_model.modified_remote_gadgets@),
                        old_model.instance.gid,
                        Ok(given@),
                    ));
                }
                SyndromeStep::Invalid
            },
        }
    }
}

/// A stored syndrome has a bit for each check of the type, the value of the check from the
/// outcomes of the owner and of the gadgets that the slots lead to. Other check models are
/// not changed.
pub proof fn law_stored_syndrome_has_the_check_values(
    before: WindowCoordinator,
    after: WindowCoordinator,
    cid: u64,
    i: int,
)
    requires
        syndrome_stepped(before, after, cid, SyndromeStep::Stored),
        0 <= i < before.types@.check_model_types[before.check_models@[cid].instance.ctype].checks@.len(),
    ensures
        ({
            let checks = before.types@.check_model_types[before.check_models@[cid].instance.ctype].checks@;
            let model = CheckModel {
                expanded_remote_gadgets: after.check_models@[cid].expanded_remote_gadgets,
                ..before.check_models@[cid]
            };
            &&& after.check_models@[cid].syndrome is Some
            &&& after.check_models@[cid].syndrome->0@.len() == checks.len()
            &&& detector_value(
                before.gadgets@,
                before.gadgets@[before.check_models@[cid].instance.gid],
                model,
                checks_view(checks),
                i,
            ) == Some(after.check_models@[cid].syndrome->0@[i])
        }),
        forall|c: u64| #[trigger] before.check_models@.contains_key(c) && c != cid ==> after.check_models@[c]
            == before.check_models@[c],
{
    let check_model = before.check_models@[cid];
    let owner = before.gadgets@[check_model.instance.gid];
    let checks = checks_view(before.types@.check_model_types[check_model.instance.ctype].checks@);
    let expanded = after.check_models@[cid].expanded_remote_gadgets->0;
    let syndrome = after.check_models@[cid].syndrome->0;
    assert(are_detectors(before.gadgets@, owner, with_expansion(check_model, expanded), checks, syndrome@));
    assert(detector_value(before.gadgets@, owner, with_expansion(check_model, expanded), checks, i) == Some(syndrome@[i]));
}

/// A check model waits for exactly the gadgets that it reads and that have no outcomes: its
/// own gadget and those that its slots stand for.
pub proof fn law_syndrome_waits_for_missing_outcomes(
    before: WindowCoordinator,
    after: WindowCoordinator,
    cid: u64,
    list: Vec<u64>,
    g: u64,
)
    requires
        syndrome_stepped(before, after, cid, SyndromeStep::WaitsForOutcomes(list)),
        list@.contains(g),
    ensures
        before.gadgets@[g].outcomes is None,
        g == before.check_models@[cid].instance.gid || exists|expanded: Vec<Option<u64>>| #[trigger]
            expands_gadgets(
                before.gadgets@,
                gadget_slots(before.check_models@[cid].modified_remote_gadgets@),
                before.check_models@[cid].instance.gid,
                Ok(expanded@),
            ) && expanded@.contains(Some(g)),
        after.check_models@ == before.check_models@,
{
}

} // verus!
