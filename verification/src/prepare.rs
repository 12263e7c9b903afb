//! A decode from the program to the corrections: what is handed to the decoder, and
//! what its answer changes.
use crate::bin::CheckModelType;
use crate::bit_vector::{zeros, BitVector};
use crate::cache_key::{region_view, window_of, Window};
use crate::collections::IdSet;
use crate::decode_plan::{leaves_window, DecodePlan, DecoderCache};
use crate::frames::{are_corrections, corrections_of, law_no_mechanism_corrects_nothing, mechanism_fits, Frame};
use crate::hypergraph::{window_edges, ErrorIndex};
use crate::monolithic::MonolithicCoordinator;
use crate::monolithic_decode::{expanded_gadgets, part_gadgets};
use crate::network::CheckModel;
use crate::order::strictly_increasing;
use crate::prediction::{are_joined_values, get_syndrome, joined_syndromes, model_known, window_syndrome};
use crate::registry::Registry;
use crate::relative::{checks_of, cids_of, ExpandedGadget, RelativeMapping};
use crate::subgraph::{attached_eids, bound_cids, is_subgraph, take_subgraph, TakenSubgraph};
use crate::window::WindowCoordinator;
use crate::window_commit::{
    all_flipped, apply_flips, attached_cid, committed_errors, committed_upto, detector_context, detector_exists,
    finish_window, finished, fired_errors, flipped_detectors, law_committed_mechanisms_flip_their_detectors,
    law_known_mechanisms_have_detectors, law_region_mechanisms_take_effect, law_unlisted_syndromes_stay, DetectorContext,
};
use crate::window_explore::ExploredWindow;
use crate::window_program::{
    expand_window, gadgets_view, is_window_program, law_window_program_describes_its_gadgets,
    law_window_program_has_the_outside_error_models, GadgetView, Scene, SceneRef,
};
use vstd::prelude::*;

verus! {

/// What a decode looks at, with its local numbers.
pub struct NumberedWindow {
    pub gadgets: Vec<ExpandedGadget>,
    pub mapping: RelativeMapping,
}

/// A decode that is ready for the decoder.
pub struct PreparedDecode {
    pub numbered: NumberedWindow,
    pub syndrome: BitVector,
    pub plan: DecodePlan,
}

/// What to do about a claimed window.
pub enum WindowStep {
    /// no gadget to commit has a check model, so no correction is needed
    Trivial,
    /// something about the window is not known or invalid
    Unknown,
    /// the decoder has to be asked
    Decode(PreparedDecode),
}

/// The syndrome of a numbered window, its hyperedges and its size allow a decode.
pub open spec fn decodable(window: Window, syndrome: Option<Seq<bool>>, merge: bool) -> bool {
    &&& cids_of(window.gadgets).len() <= u32::MAX
    &&& syndrome matches Some(bits) && bits.len() == checks_of(window.gadgets)
    &&& window.edges() is Some
    &&& !leaves_window(window.edges()->0, checks_of(window.gadgets), merge)
}

// ---------------------------------------------------------------------------
// Sliding windows
// ---------------------------------------------------------------------------

/// The program around the decoder window of a claim.
pub open spec fn scene_of(c: WindowCoordinator, claim: ExploredWindow) -> Scene {
    Scene {
        gadgets: c.gadgets@,
        check_models: c.check_models@,
        error_models: c.error_models@,
        check_model_types: c.types@.check_model_types,
        window: claim.decoder_window@,
    }
}

/// The ids of a set in increasing order.
pub open spec fn lists_in_order(ids: Seq<u64>, set: Set<u64>) -> bool {
    strictly_increasing(ids) && ids.to_set() == set
}

/// The window that a claim numbers.
pub open spec fn claimed_window(c: WindowCoordinator, claim: ExploredWindow, numbered: NumberedWindow) -> Window {
    window_of(
        numbered.gadgets@,
        numbered.mapping,
        c.error_models@,
        c.types@.error_model_types,
        region_view(Some(&claim.committing_cids)),
    )
}

/// A listing of what the decode of a claim looks at.
pub open spec fn is_listing(c: WindowCoordinator, claim: ExploredWindow, gadgets: Seq<ExpandedGadget>) -> bool {
    exists|gids: Seq<u64>|
        lists_in_order(gids, claim.decoder_window@) && #[trigger] is_window_program(
            scene_of(c, claim),
            gids,
            gadgets_view(gadgets),
        )
}

/// What the decode of a claim would look at cannot be decoded.
pub open spec fn fails_on(c: WindowCoordinator, claim: ExploredWindow, numbered: NumberedWindow, merge: bool) -> bool {
    &&& is_listing(c, claim, numbered.gadgets@)
    &&& RelativeMapping::numberable(numbered.gadgets@) ==> numbered.mapping.numbers(numbered.gadgets@) && !decodable(
        claimed_window(c, claim, numbered),
        joined_syndromes(numbered.mapping.global_cid_of@, c.check_models@),
        merge,
    )
}

impl WindowCoordinator {
    /// Prepares the decode of a claimed window whose syndromes are there.
    pub fn prepare_decode(&self, claim: &ExploredWindow, persistent: bool, cache: &DecoderCache) -> (step: WindowStep)
        requires
            self.wf(),
            cache.wf(),
            cache.windowed,
        ensures
            step is Trivial <==> claim.committing_cids@ == Set::<u64>::empty(),
            step matches WindowStep::Decode(p) ==> {
                &&& is_listing(*self, *claim, p.numbered.gadgets@)
                &&& p.numbered.mapping.numbers(p.numbered.gadgets@)
                &&& p.syndrome.wf()
                &&& p.syndrome.padded()
                &&& p.plan.syndrome().padded()
                &&& joined_syndromes(p.numbered.mapping.global_cid_of@, self.check_models@) == Some(p.syndrome@)
                &&& p.syndrome@.len() == checks_of(p.numbered.gadgets@)
                &&& cache.planned(persistent, claimed_window(*self, *claim, p.numbered), p.syndrome@, Some(p.plan))
            },
            step is Unknown ==> {
                ||| forall|gids: Seq<u64>, program: Seq<GadgetView>|
                    lists_in_order(gids, claim.decoder_window@) ==> !#[trigger] is_window_program(
                        scene_of(*self, *claim),
                        gids,
                        program,
                    )
                ||| exists|numbered: NumberedWindow| #[trigger] fails_on(*self, *claim, numbered, cache.merge)
            },
    {
        let committing = claim.committing_cids.items();
        proof {
            if committing@.len() == 0 {
                assert(committing@.to_set() =~= Set::<u64>::empty());
            } else {
                assert(committing@.contains(committing@[0]));
                assert(committing@.to_set().contains(committing@[0]));
            }
        }
        if committing.len() == 0 {
            return WindowStep::Trivial;
        }
        let gids = claim.decoder_window.sorted_ids();
        let scene = SceneRef {
            gadgets: &self.gadgets,
            check_models: &self.check_models,
            error_models: &self.error_models,
            check_model_types: &self.types.check_model_types,
            window: &claim.decoder_window,
        };
        assert(scene@ == scene_of(*self, *claim));
        let Some(gadgets) = expand_window(&scene, &gids) else {
            proof {
                assert forall|other: Seq<u64>, program: Seq<GadgetView>|
                    lists_in_order(other, claim.decoder_window@) implies !#[trigger] is_window_program(
                    scene_of(*self, *claim),
                    other,
                    program,
                ) by {
                    crate::order::lemma_strictly_increasing_unique(other, gids@);
                }
            }
            return WindowStep::Unknown;
        };
        assert(is_listing(*self, *claim, gadgets@)) by {
            assert(lists_in_order(gids@, claim.decoder_window@));
            assert(is_window_program(scene_of(*self, *claim), gids@, gadgets_view(gadgets@)));
        }
        let Some(mapping) = RelativeMapping::try_new(&gadgets) else {
            assert(fails_on(*self, *claim, (NumberedWindow { gadgets, mapping: arbitrary() }), cache.merge));
            return WindowStep::Unknown;
        };
        let ghost numbered = NumberedWindow { gadgets, mapping };
        if mapping.global_cid_of.len() > u32::MAX as usize {
            assert(fails_on(*self, *claim, numbered, cache.merge));
            return WindowStep::Unknown;
        }
        let Some(syndrome) = window_syndrome(&mapping.global_cid_of, &self.check_models) else {
            assert(fails_on(*self, *claim, numbered, cache.merge));
            return WindowStep::Unknown;
        };
        if syndrome.size != mapping.count_checks as u64 {
            assert(fails_on(*self, *claim, numbered, cache.merge));
            return WindowStep::Unknown;
        }
        let Some(plan) = cache.plan(
            persistent,
            &gadgets,
            &mapping,
            &syndrome,
            &self.error_models,
            &self.types.error_model_types,
            Some(&claim.committing_cids),
        ) else {
            assert(fails_on(*self, *claim, numbered, cache.merge));
            return WindowStep::Unknown;
        };
        WindowStep::Decode(PreparedDecode { numbered: NumberedWindow { gadgets, mapping }, syndrome, plan })
    }
}

/// The mechanisms that a parity factor names.
pub open spec fn fired_by(subgraph: Seq<u64>, errors: Seq<ErrorIndex>) -> Seq<ErrorIndex> {
    subgraph.map_values(|ei: u64| errors[ei as int])
}

/// The mechanisms of a parity factor that take effect: those of the commit region.
pub open spec fn effective(
    c: WindowCoordinator,
    claim: ExploredWindow,
    numbered: NumberedWindow,
    fired: Seq<ErrorIndex>,
) -> Seq<ErrorIndex> {
    committed_upto(fired, numbered.mapping.global_eid_of@, c.error_models@, claim.committing_cids@, fired.len() as int)
}

/// The detectors that mechanisms flip inside a claimed window.
pub open spec fn detectors_flipped(
    c: WindowCoordinator,
    numbered: NumberedWindow,
    mechanisms: Seq<ErrorIndex>,
) -> Option<Seq<(u64, u64)>> {
    detector_context(numbered.gadgets@, numbered.mapping, c.error_models@, c.types@.error_model_types).all_detectors(
        mechanisms,
        mechanisms.len() as int,
    )
}

/// A parity factor names mechanisms of the window, and everything that those of the
/// commit region change is known.
pub open spec fn commits(
    c: WindowCoordinator,
    claim: ExploredWindow,
    numbered: NumberedWindow,
    subgraph: Seq<u64>,
    errors: Seq<ErrorIndex>,
    sizes: Seq<(usize, usize)>,
) -> bool {
    let fired = fired_by(subgraph, errors);
    let mechanisms = effective(c, claim, numbered, fired);
    &&& forall|k: int| 0 <= k < subgraph.len() ==> (#[trigger] subgraph[k]) < errors.len()
    &&& forall|k: int|
        0 <= k < fired.len() ==> attached_cid(#[trigger] fired[k], numbered.mapping.global_eid_of@, c.error_models@) is Some
    &&& forall|k: int|
        0 <= k < mechanisms.len() ==> mechanism_fits(
            #[trigger] mechanisms[k],
            numbered.mapping.local_gid_of_local_eid@,
            sizes,
            numbered.mapping.global_eid_of@,
            c.error_models@,
            c.types@.error_model_types,
        )
    &&& detectors_flipped(c, numbered, mechanisms) is Some
    &&& forall|k: int|
        0 <= k < detectors_flipped(c, numbered, mechanisms)->0.len() ==> detector_exists(
            c.check_models@,
            #[trigger] detectors_flipped(c, numbered, mechanisms)->0[k],
        )
}

impl WindowCoordinator {
    /// Commits the answer of the decoder: the mechanisms of the commit region flip their
    /// detectors, the region is committed and the rest of the window is free again. The
    /// result holds a correction for each numbered gadget, `sizes` giving how many output
    /// observables and readouts it has. `None`, and no change, if a part of it is not known.
    pub fn commit_window(
        &mut self,
        claim: &ExploredWindow,
        numbered: &NumberedWindow,
        subgraph: &Vec<u64>,
        errors: &Vec<ErrorIndex>,
        sizes: &Vec<(usize, usize)>,
    ) -> (frames: Option<Vec<Frame>>)
        requires
            old(self).wf(),
            claim.commit_region@.subset_of(claim.decoder_window@),
        ensures
            final(self).wf(),
            final(self).config == old(self).config,
            final(self).types == old(self).types,
            final(self).error_models == old(self).error_models,
            final(self).referrals == old(self).referrals,
            final(self).dem_log == old(self).dem_log,
            final(self).next_gid == old(self).next_gid,
            final(self).next_cid == old(self).next_cid,
            final(self).next_eid == old(self).next_eid,
            frames is Some == commits(*old(self), *claim, *numbered, subgraph@, errors@, sizes@),
            frames is None ==> final(self).gadgets@ == old(self).gadgets@ && final(self).check_models@ == old(
                self,
            ).check_models@,
            frames matches Some(list) ==> {
                let mechanisms = effective(*old(self), *claim, *numbered, fired_by(subgraph@, errors@));
                &&& are_corrections(
                    list@,
                    mechanisms,
                    mechanisms.len() as int,
                    numbered.mapping.local_gid_of_local_eid@,
                    sizes@,
                    numbered.mapping.global_eid_of@,
                    old(self).error_models@,
                    old(self).types@.error_model_types,
                )
                &&& all_flipped(
                    old(self).check_models@,
                    final(self).check_models@,
                    detectors_flipped(*old(self), *numbered, mechanisms)->0,
                )
                &&& finished(
                    old(self).gadgets@,
                    final(self).gadgets@,
                    claim.commit_region@,
                    claim.decoder_window@,
                    claim.center_gid,
                )
            },
    {
        let Some(fired) = fired_errors(subgraph, errors) else {
            return None;
        };
        let Some(mechanisms) = committed_errors(&fired, &numbered.mapping, &self.error_models, &claim.committing_cids) else {
            return None;
        };
        let Some(frames) = corrections_of(
            &mechanisms,
            &numbered.mapping,
            sizes,
            &self.error_models,
            &self.types.error_model_types,
        ) else {
            return None;
        };
        let Some(detectors) = flipped_detectors(
            &mechanisms,
            &numbered.gadgets,
            &numbered.mapping,
            &self.error_models,
            &self.types.error_model_types,
        ) else {
            return None;
        };
        if !apply_flips(&mut self.check_models, &detectors) {
            return None;
        }
        finish_window(&mut self.gadgets, &claim.commit_region, &claim.decoder_window, claim.center_gid);
        Some(frames)
    }
}

impl WindowCoordinator {
    /// Commits a window without check models in its commit region: nothing is flipped,
    /// the region is committed and the rest of the window is free again. The result holds
    /// an empty correction for each of the sizes.
    pub fn commit_trivial(&mut self, claim: &ExploredWindow, sizes: &Vec<(usize, usize)>) -> (frames: Vec<Frame>)
        requires
            old(self).wf(),
            claim.commit_region@.subset_of(claim.decoder_window@),
        ensures
            final(self).wf(),
            *final(self) == (WindowCoordinator { gadgets: final(self).gadgets, ..*old(self) }),
            finished(
                old(self).gadgets@,
                final(self).gadgets@,
                claim.commit_region@,
                claim.decoder_window@,
                claim.center_gid,
            ),
            frames@.len() == sizes@.len(),
            forall|i: int|
                0 <= i < sizes@.len() ==> (#[trigger] frames@[i]).residual_bits() == Seq::new(
                    sizes@[i].0 as nat,
                    |k: int| false,
                ),
            forall|i: int|
                0 <= i < sizes@.len() ==> (#[trigger] frames@[i]).readout_bits() == Seq::new(
                    sizes@[i].1 as nat,
                    |k: int| false,
                ),
    {
        let mut frames: Vec<Frame> = Vec::new();
        let mut i: usize = 0;
        while i < sizes.len()
            invariant
                i <= sizes@.len(),
                frames@.len() == i,
                forall|k: int|
                    0 <= k < i ==> (#[trigger] frames@[k]).residual_bits() == Seq::new(sizes@[k].0 as nat, |j: int| false),
                forall|k: int|
                    0 <= k < i ==> (#[trigger] frames@[k]).readout_bits() == Seq::new(sizes@[k].1 as nat, |j: int| false),
            decreases sizes@.len() - i,
        {
            frames.push(Frame::zeros(sizes[i].0, sizes[i].1));
            i += 1;
        }
        finish_window(&mut self.gadgets, &claim.commit_region, &claim.decoder_window, claim.center_gid);
        frames
    }
}

/// The rows of a list that name members of a region, in order.
pub fn committed_rows(gids: &Vec<u64>, region: &IdSet) -> (rows: Vec<usize>)
    ensures
        forall|i: int, j: int| 0 <= i < j < rows@.len() ==> rows@[i] < rows@[j],
        forall|r: usize| #[trigger] rows@.contains(r) <==> r < gids@.len() && region@.contains(gids@[r as int]),
{
    let mut rows: Vec<usize> = Vec::new();
    let mut i: usize = 0;
    while i < gids.len()
        invariant
            i <= gids@.len(),
            forall|a: int, b: int| 0 <= a < b < rows@.len() ==> rows@[a] < rows@[b],
            forall|r: usize| #[trigger] rows@.contains(r) <==> r < i && region@.contains(gids@[r as int]),
        decreases gids@.len() - i,
    {
        let ghost before = rows@;
        if region.contains(gids[i]) {
            rows.push(i);
            proof {
                assert forall|a: int| 0 <= a < before.len() implies before[a] < i by {
                    assert(before.contains(before[a]));
                }
                assert forall|r: usize| #[trigger] rows@.contains(r) <==> r < i + 1 && region@.contains(gids@[r as int]) by {
                    if before.contains(r) {
                        assert(rows@[before.index_of(r)] == r);
                    }
                    if r == i {
                        assert(rows@[before.len() as int] == i);
                    }
                    if rows@.contains(r) {
                        let k = rows@.index_of(r);
                        if k < before.len() {
                            assert(before[k] == r);
                        }
                    }
                }
            }
        }
        i += 1;
    }
    rows
}

// ---------------------------------------------------------------------------
// Closed parts
// ---------------------------------------------------------------------------

/// The window that a part of a program numbers.
pub open spec fn part_window(
    part: TakenSubgraph,
    types: Map<u64, crate::bin::ErrorModelType>,
    numbered: NumberedWindow,
) -> Window {
    window_of(numbered.gadgets@, numbered.mapping, part.error_models@, types, None)
}

/// A part is listed in the order of its gadgets.
pub open spec fn lists_part(part: TakenSubgraph, types: Map<u64, CheckModelType>, gadgets: Seq<ExpandedGadget>) -> bool {
    part_gadgets(part, types, part.gids@.len() as int) == Some(gadgets_view(gadgets))
}

/// The check values of a numbered part are known.
pub open spec fn part_known(part: TakenSubgraph, types: Map<u64, CheckModelType>, numbered: NumberedWindow) -> bool {
    forall|i: int|
        0 <= i < numbered.mapping.global_cid_of@.len() ==> model_known(
            #[trigger] numbered.mapping.global_cid_of@[i],
            part.gadgets@,
            part.check_models@,
            types,
        )
}

/// What the decode of a part would look at cannot be decoded.
pub open spec fn part_fails_on(
    part: TakenSubgraph,
    check_model_types: Map<u64, CheckModelType>,
    error_model_types: Map<u64, crate::bin::ErrorModelType>,
    numbered: NumberedWindow,
    bits: Seq<bool>,
    merge: bool,
) -> bool {
    let known = part_known(part, check_model_types, numbered);
    &&& lists_part(part, check_model_types, numbered.gadgets@)
    &&& RelativeMapping::numberable(numbered.gadgets@) ==> {
        &&& numbered.mapping.numbers(numbered.gadgets@)
        &&& known ==> are_joined_values(
            numbered.mapping.global_cid_of@,
            part.gadgets@,
            part.check_models@,
            check_model_types,
            bits,
        )
        &&& !decodable(
            part_window(part, error_model_types, numbered),
            if known {
                Some(bits)
            } else {
                None
            },
            merge,
        )
    }
}

/// Prepares the decode of a closed part of a program. `None` if something about it is
/// not known or invalid.
pub fn prepare_part(
    part: &TakenSubgraph,
    check_model_types: &Registry<CheckModelType>,
    error_model_types: &Registry<crate::bin::ErrorModelType>,
    persistent: bool,
    cache: &DecoderCache,
) -> (prepared: Option<PreparedDecode>)
    requires
        part.gadgets.wf(),
        part.check_models.wf(),
        part.error_models.wf(),
        check_model_types.wf(),
        error_model_types.wf(),
        cache.wf(),
        !cache.windowed,
    ensures
        prepared matches Some(p) ==> {
            &&& lists_part(*part, check_model_types@, p.numbered.gadgets@)
            &&& p.numbered.mapping.numbers(p.numbered.gadgets@)
            &&& p.syndrome.wf()
            &&& p.syndrome.padded()
            &&& p.plan.syndrome().padded()
            &&& part_known(*part, check_model_types@, p.numbered)
            &&& are_joined_values(
                p.numbered.mapping.global_cid_of@,
                part.gadgets@,
                part.check_models@,
                check_model_types@,
                p.syndrome@,
            )
            &&& p.syndrome@.len() == checks_of(p.numbered.gadgets@)
            &&& cache.planned(persistent, part_window(*part, error_model_types@, p.numbered), p.syndrome@, Some(p.plan))
        },
        prepared is None ==> {
            ||| part_gadgets(*part, check_model_types@, part.gids@.len() as int) is None
            ||| exists|numbered: NumberedWindow, bits: Seq<bool>| #[trigger]
                part_fails_on(*part, check_model_types@, error_model_types@, numbered, bits, cache.merge)
        },
{
    let ghost none = Seq::<bool>::empty();
    let Some(gadgets) = expanded_gadgets(part, check_model_types) else {
        return None;
    };
    let Some(mapping) = RelativeMapping::try_new(&gadgets) else {
        assert(part_fails_on(
            *part,
            check_model_types@,
            error_model_types@,
            (NumberedWindow { gadgets, mapping: arbitrary() }),
            none,
            cache.merge,
        ));
        return None;
    };
    let ghost numbered = NumberedWindow { gadgets, mapping };
    let Some(syndrome) = get_syndrome(&mapping.global_cid_of, &part.gadgets, &part.check_models, check_model_types) else {
        assert(part_fails_on(*part, check_model_types@, error_model_types@, numbered, none, cache.merge));
        return None;
    };
    if mapping.global_cid_of.len() > u32::MAX as usize || syndrome.size != mapping.count_checks as u64 {
        assert(part_fails_on(*part, check_model_types@, error_model_types@, numbered, syndrome@, cache.merge));
        return None;
    }
    let Some(plan) = cache.plan(
        persistent,
        &gadgets,
        &mapping,
        &syndrome,
        &part.error_models,
        error_model_types,
        None,
    ) else {
        assert(part_fails_on(*part, check_model_types@, error_model_types@, numbered, syndrome@, cache.merge));
        return None;
    };
    Some(PreparedDecode { numbered: NumberedWindow { gadgets, mapping }, syndrome, plan })
}

/// The corrections of a closed part, all of whose fired mechanisms take effect. `None` if
/// a mechanism is unknown or flips a bit that its gadget does not have.
pub fn part_corrections(
    part: &TakenSubgraph,
    error_model_types: &Registry<crate::bin::ErrorModelType>,
    numbered: &NumberedWindow,
    subgraph: &Vec<u64>,
    errors: &Vec<ErrorIndex>,
    sizes: &Vec<(usize, usize)>,
) -> (frames: Option<Vec<Frame>>)
    requires
        part.error_models.wf(),
        error_model_types.wf(),
    ensures
        frames is Some <==> {
            &&& forall|k: int| 0 <= k < subgraph@.len() ==> (#[trigger] subgraph@[k]) < errors@.len()
            &&& forall|k: int|
                0 <= k < fired_by(subgraph@, errors@).len() ==> mechanism_fits(
                    #[trigger] fired_by(subgraph@, errors@)[k],
                    numbered.mapping.local_gid_of_local_eid@,
                    sizes@,
                    numbered.mapping.global_eid_of@,
                    part.error_models@,
                    error_model_types@,
                )
        },
        frames matches Some(list) ==> are_corrections(
            list@,
            fired_by(subgraph@, errors@),
            subgraph@.len() as int,
            numbered.mapping.local_gid_of_local_eid@,
            sizes@,
            numbered.mapping.global_eid_of@,
            part.error_models@,
            error_model_types@,
        ),
{
    let Some(fired) = fired_errors(subgraph, errors) else {
        return None;
    };
    assert(fired@ =~= fired_by(subgraph@, errors@));
    corrections_of(&fired, &numbered.mapping, sizes, &part.error_models, error_model_types)
}

impl MonolithicCoordinator {
    /// Takes the part around a gadget out of the program, if all its outputs are
    /// connected and nothing of it is missing.
    pub fn take_part(&mut self, gid: u64) -> (taken: Option<TakenSubgraph>)
        requires
            old(self).wf(),
        ensures
            final(self).wf(),
            final(self).config == old(self).config,
            final(self).types == old(self).types,
            final(self).pending_subgraphs == old(self).pending_subgraphs,
            final(self).gid_to_union_index == old(self).gid_to_union_index,
            final(self).next_gid == old(self).next_gid,
            final(self).next_cid == old(self).next_cid,
            final(self).next_eid == old(self).next_eid,
            final(self).dem_log == old(self).dem_log,
            taken is Some <==> exists|gids: Seq<u64>| #[trigger]
                is_subgraph(old(self).gadgets@, old(self).check_models@, old(self).error_models@, gid, gids),
            taken is None ==> Self::same_program(*old(self), *final(self)),
            taken matches Some(part) ==> {
                let cids = bound_cids(old(self).gadgets@, part.gids@);
                let eids = attached_eids(old(self).check_models@, cids);
                &&& is_subgraph(old(self).gadgets@, old(self).check_models@, old(self).error_models@, gid, part.gids@)
                &&& part.gadgets.wf() && part.check_models.wf() && part.error_models.wf()
                &&& part.gadgets@ == old(self).gadgets@.restrict(part.gids@.to_set())
                &&& part.check_models@ == old(self).check_models@.restrict(cids.to_set())
                &&& part.error_models@ == old(self).error_models@.restrict(eids.to_set())
                &&& final(self).gadgets@ == old(self).gadgets@.remove_keys(part.gids@.to_set())
                &&& final(self).check_models@ == old(self).check_models@.remove_keys(cids.to_set())
                &&& final(self).error_models@ == old(self).error_models@.remove_keys(eids.to_set())
            },
    {
        take_subgraph(&mut self.gadgets, &mut self.check_models, &mut self.error_models, gid)
    }

    /// The detectors that are known ahead of a decode: none, they come with its result.
    pub fn wait_for_detectors(&self, _gid: u64) -> (detectors: BitVector)
        ensures
            detectors.wf(),
            detectors@ == Seq::<bool>::empty(),
    {
        zeros(0)
    }
}

/// Committing a window in which no mechanism of the commit region fired changes no
/// syndrome and corrects nothing, whatever fired in the buffer.
pub proof fn law_buffer_mechanisms_have_no_effect(
    c: WindowCoordinator,
    claim: ExploredWindow,
    numbered: NumberedWindow,
    subgraph: Seq<u64>,
    errors: Seq<ErrorIndex>,
    sizes: Seq<(usize, usize)>,
    frames: Seq<Frame>,
    after: Map<u64, CheckModel>,
)
    requires
        commits(c, claim, numbered, subgraph, errors, sizes),
        are_corrections(
            frames,
            effective(c, claim, numbered, fired_by(subgraph, errors)),
            effective(c, claim, numbered, fired_by(subgraph, errors)).len() as int,
            numbered.mapping.local_gid_of_local_eid@,
            sizes,
            numbered.mapping.global_eid_of@,
            c.error_models@,
            c.types@.error_model_types,
        ),
        all_flipped(
            c.check_models@,
            after,
            detectors_flipped(c, numbered, effective(c, claim, numbered, fired_by(subgraph, errors)))->0,
        ),
        forall|k: int|
            0 <= k < subgraph.len() ==> !claim.committing_cids@.contains(
                c.error_models@[numbered.mapping.global_eid_of@[errors[(#[trigger] subgraph[k]) as int].eid as int]].instance.cid,
            ),
    ensures
        after.dom() == c.check_models@.dom(),
        forall|cid: u64| #[trigger]
            c.check_models@.contains_key(cid) && c.check_models@[cid].syndrome is Some && c.check_models@[cid].syndrome->0.wf()
                ==> after[cid].syndrome is Some && after[cid].syndrome->0@ == c.check_models@[cid].syndrome->0@,
        frames.len() == sizes.len(),
        forall|g: int|
            0 <= g < sizes.len() ==> (#[trigger] frames[g]).residual_bits() == Seq::new(sizes[g].0 as nat, |i: int| false)
                && frames[g].readout_bits() == Seq::new(sizes[g].1 as nat, |i: int| false),
{
    let fired = fired_by(subgraph, errors);
    let eids = numbered.mapping.global_eid_of@;
    let mechanisms = effective(c, claim, numbered, fired);
    assert forall|k: int| 0 <= k < fired.len() implies (#[trigger] fired[k]).eid < eids.len()
        && c.error_models@.contains_key(eids[fired[k].eid as int]) && !claim.committing_cids@.contains(
        c.error_models@[eids[fired[k].eid as int]].instance.cid,
    ) by {
        assert(attached_cid(fired[k], eids, c.error_models@) is Some);
        assert(fired[k] == errors[subgraph[k] as int]);
    }
    law_region_mechanisms_take_effect(fired, eids, c.error_models@, claim.committing_cids@);
    let f = |m: ErrorIndex| claim.committing_cids@.contains(c.error_models@[eids[m.eid as int]].instance.cid);
    fired.filter_lemma(f);
    if mechanisms.len() > 0 {
        assert(f(fired.filter(f)[0]));
        assert(fired.filter(f).contains(fired.filter(f)[0]));
        fired.lemma_filter_contains_rev(f, fired.filter(f)[0]);
    }
    assert(mechanisms =~= Seq::<ErrorIndex>::empty());
    assert forall|g: int| 0 <= g < sizes.len() implies (#[trigger] frames[g]).residual_bits() == Seq::new(
        sizes[g].0 as nat,
        |i: int| false,
    ) && frames[g].readout_bits() == Seq::new(sizes[g].1 as nat, |i: int| false) by {
        law_no_mechanism_corrects_nothing(
            frames,
            numbered.mapping.local_gid_of_local_eid@,
            sizes,
            eids,
            c.error_models@,
            c.types@.error_model_types,
            g,
        );
    }
    let list = detectors_flipped(c, numbered, mechanisms)->0;
    assert(list =~= Seq::<(u64, u64)>::empty());
    assert forall|cid: u64| #[trigger]
        c.check_models@.contains_key(cid) && c.check_models@[cid].syndrome is Some
            && c.check_models@[cid].syndrome->0.wf() implies after[cid].syndrome is Some && after[cid].syndrome->0@
        == c.check_models@[cid].syndrome->0@ by {
        law_unlisted_syndromes_stay(c.check_models@, after, list, cid);
    }
}

proof fn lemma_chosen_through(list: Seq<u64>, errors: Seq<ErrorIndex>, p: spec_fn(ErrorIndex) -> bool, q: spec_fn(ErrorIndex) -> bool)
    ensures
        list.map_values(|e: u64| errors[e as int]).filter(p).filter(q).len() == list.filter(
            |e: u64| p(errors[e as int]) && q(errors[e as int]),
        ).len(),
    decreases list.len(),
{
    reveal(Seq::filter);
    let f = |e: u64| errors[e as int];
    let both = |e: u64| p(errors[e as int]) && q(errors[e as int]);
    if list.len() > 0 {
        let rest = list.drop_last();
        lemma_chosen_through(rest, errors, p, q);
        assert(list.map_values(f).drop_last() =~= rest.map_values(f));
        assert(list.map_values(f).last() == f(list.last()));
        let inner = rest.map_values(f).filter(p);
        if p(f(list.last())) {
            assert(list.map_values(f).filter(p) == inner.push(f(list.last())));
            assert(inner.push(f(list.last())).drop_last() =~= inner);
        }
    } else {
        assert(list.map_values(f) =~= Seq::<ErrorIndex>::empty());
    }
}

/// Committing a window inverts a check exactly if an odd number of the fired hyperedges of
/// the commit region stand for mechanisms that have the check an odd number of times among
/// their detectors.
pub proof fn law_committed_hyperedges_flip_their_detectors(
    c: WindowCoordinator,
    claim: ExploredWindow,
    numbered: NumberedWindow,
    subgraph: Seq<u64>,
    errors: Seq<ErrorIndex>,
    sizes: Seq<(usize, usize)>,
    after: Map<u64, CheckModel>,
    cid: u64,
    i: u64,
)
    requires
        commits(c, claim, numbered, subgraph, errors, sizes),
        all_flipped(
            c.check_models@,
            after,
            detectors_flipped(c, numbered, effective(c, claim, numbered, fired_by(subgraph, errors)))->0,
        ),
        c.check_models@.contains_key(cid),
        c.check_models@[cid].syndrome is Some,
        c.check_models@[cid].syndrome->0.wf(),
        i < c.check_models@[cid].syndrome->0.size,
    ensures
        after[cid].syndrome is Some,
        ({
            let context = detector_context(
                numbered.gadgets@,
                numbered.mapping,
                c.error_models@,
                c.types@.error_model_types,
            );
            let in_region = |m: ErrorIndex|
                claim.committing_cids@.contains(c.error_models@[numbered.mapping.global_eid_of@[m.eid as int]].instance.cid);
            let has_check = |m: ErrorIndex| context.detectors_of(m)->0.filter(|x: (u64, u64)| x == (cid, i)).len() % 2 == 1;
            after[cid].syndrome->0@[i as int] == (c.check_models@[cid].syndrome->0@[i as int] != (subgraph.filter(
                |e: u64| in_region(errors[e as int]) && has_check(errors[e as int]),
            ).len() % 2 == 1))
        }),
{
    let fired = fired_by(subgraph, errors);
    let eids = numbered.mapping.global_eid_of@;
    let mechanisms = effective(c, claim, numbered, fired);
    let context = detector_context(numbered.gadgets@, numbered.mapping, c.error_models@, c.types@.error_model_types);
    let in_region = |m: ErrorIndex| claim.committing_cids@.contains(c.error_models@[eids[m.eid as int]].instance.cid);
    let has_check = |m: ErrorIndex| context.detectors_of(m)->0.filter(|x: (u64, u64)| x == (cid, i)).len() % 2 == 1;
    assert forall|k: int| 0 <= k < fired.len() implies (#[trigger] fired[k]).eid < eids.len()
        && c.error_models@.contains_key(eids[fired[k].eid as int]) by {
        assert(attached_cid(fired[k], eids, c.error_models@) is Some);
    }
    law_region_mechanisms_take_effect(fired, eids, c.error_models@, claim.committing_cids@);
    law_committed_mechanisms_flip_their_detectors(context, mechanisms, c.check_models@, after, cid, i);
    assert(mechanisms == fired.filter(in_region));
    lemma_chosen_through(subgraph, errors, in_region, has_check);
}

/// A decode looks at the decoder window: its listing starts with the gadgets of the window,
/// in increasing order, and behind them has only gadgets without check models.
pub proof fn law_decode_looks_at_the_decoder_window(c: WindowCoordinator, claim: ExploredWindow, gadgets: Seq<ExpandedGadget>) -> (n:
    int)
    requires
        is_listing(c, claim, gadgets),
    ensures
        0 <= n <= gadgets.len(),
        forall|i: int, j: int| 0 <= i < j < n ==> gadgets[i].gid < gadgets[j].gid,
        forall|i: int| 0 <= i < n ==> claim.decoder_window@.contains((#[trigger] gadgets[i]).gid),
        forall|g: u64| #[trigger]
            claim.decoder_window@.contains(g) ==> exists|i: int| 0 <= i < n && (#[trigger] gadgets[i]).gid == g,
        forall|i: int| n <= i < gadgets.len() ==> (#[trigger] gadgets[i]).check_model is None,
{
    let gids = choose|gids: Seq<u64>|
        lists_in_order(gids, claim.decoder_window@) && #[trigger] is_window_program(
            scene_of(c, claim),
            gids,
            gadgets_view(gadgets),
        );
    let n = gids.len() as int;
    let program = gadgets_view(gadgets);
    law_window_program_has_the_outside_error_models(scene_of(c, claim), gids, program, 0, 0);
    if n > 0 {
        law_window_program_describes_its_gadgets(scene_of(c, claim), gids, program, 0, 0);
    }
    assert forall|i: int| 0 <= i < n implies (#[trigger] gadgets[i]).gid == gids[i] by {
        law_window_program_describes_its_gadgets(scene_of(c, claim), gids, program, i, 0);
        assert(program[i].gid == gadgets[i].gid);
    }
    assert forall|i: int| 0 <= i < n implies claim.decoder_window@.contains((#[trigger] gadgets[i]).gid) by {
        assert(gids.contains(gids[i]));
        assert(gids.to_set().contains(gids[i]));
    }
    assert forall|g: u64| #[trigger] claim.decoder_window@.contains(g) implies exists|i: int|
        0 <= i < n && (#[trigger] gadgets[i]).gid == g by {
        assert(gids.to_set().contains(g));
        let i = gids.index_of(g);
        assert(gadgets[i].gid == g);
    }
    assert forall|i: int| n <= i < gadgets.len() implies (#[trigger] gadgets[i]).check_model is None by {
        assert(program[i].check_model is None);
    }
    n
}

/// The hyperedges of a claim are those of its listing, where the check models of its commit
/// region count as committed; in a part of a program all of them do.
pub proof fn law_claimed_hyperedges_know_the_commit_region(
    c: WindowCoordinator,
    claim: ExploredWindow,
    part: TakenSubgraph,
    types: Map<u64, crate::bin::ErrorModelType>,
    numbered: NumberedWindow,
)
    requires
        numbered.mapping.numbers(numbered.gadgets@),
    ensures
        claimed_window(c, claim, numbered).edges() == window_edges(
            numbered.gadgets@,
            numbered.gadgets@.len() as int,
            c.error_models@,
            c.types@.error_model_types,
            numbered.mapping.local_cid_of@,
            numbered.mapping.start_indices@,
            Some(claim.committing_cids@),
        ),
        part_window(part, types, numbered).edges() == window_edges(
            numbered.gadgets@,
            numbered.gadgets@.len() as int,
            part.error_models@,
            types,
            numbered.mapping.local_cid_of@,
            numbered.mapping.start_indices@,
            None,
        ),
{
}

proof fn lemma_detectors_come_from_mechanisms(context: DetectorContext, mechanisms: Seq<ErrorIndex>, n: int, k: int) -> (at: (int, int))
    requires
        0 <= n <= mechanisms.len(),
        context.all_detectors(mechanisms, n) is Some,
        0 <= k < context.all_detectors(mechanisms, n)->0.len(),
    ensures
        0 <= at.0 < n,
        context.detectors_of(mechanisms[at.0]) is Some,
        0 <= at.1 < context.detectors_of(mechanisms[at.0])->0.len(),
        context.detectors_of(mechanisms[at.0])->0[at.1] == context.all_detectors(mechanisms, n)->0[k],
    decreases n,
{
    let before = context.all_detectors(mechanisms, n - 1)->0;
    if k < before.len() {
        lemma_detectors_come_from_mechanisms(context, mechanisms, n - 1, k)
    } else {
        (n - 1, k - before.len())
    }
}

/// An answer is committed if it names hyperedges of the window whose error models are known,
/// and what those of the commit region flip is there. Of what fired in the buffer no more
/// has to be known.
pub proof fn law_known_answer_is_committed(
    c: WindowCoordinator,
    claim: ExploredWindow,
    numbered: NumberedWindow,
    subgraph: Seq<u64>,
    errors: Seq<ErrorIndex>,
    sizes: Seq<(usize, usize)>,
)
    requires
        forall|k: int| 0 <= k < subgraph.len() ==> (#[trigger] subgraph[k]) < errors.len(),
        forall|k: int|
            0 <= k < subgraph.len() ==> {
                let eids = numbered.mapping.global_eid_of@;
                let m = errors[(#[trigger] subgraph[k]) as int];
                m.eid < eids.len() && c.error_models@.contains_key(eids[m.eid as int])
            },
        forall|k: int|
            0 <= k < subgraph.len() ==> {
                let context = detector_context(
                    numbered.gadgets@,
                    numbered.mapping,
                    c.error_models@,
                    c.types@.error_model_types,
                );
                let eids = numbered.mapping.global_eid_of@;
                let m = errors[(#[trigger] subgraph[k]) as int];
                claim.committing_cids@.contains(c.error_models@[eids[m.eid as int]].instance.cid) ==> {
                    &&& mechanism_fits(
                        m,
                        numbered.mapping.local_gid_of_local_eid@,
                        sizes,
                        eids,
                        c.error_models@,
                        c.types@.error_model_types,
                    )
                    &&& context.detectors_of(m) is Some
                    &&& forall|d: int|
                        0 <= d < context.detectors_of(m)->0.len() ==> detector_exists(
                            c.check_models@,
                            #[trigger] context.detectors_of(m)->0[d],
                        )
                }
            },
    ensures
        commits(c, claim, numbered, subgraph, errors, sizes),
{
    let fired = fired_by(subgraph, errors);
    let eids = numbered.mapping.global_eid_of@;
    let context = detector_context(numbered.gadgets@, numbered.mapping, c.error_models@, c.types@.error_model_types);
    let mechanisms = effective(c, claim, numbered, fired);
    let f = |m: ErrorIndex| claim.committing_cids@.contains(c.error_models@[eids[m.eid as int]].instance.cid);
    assert forall|k: int| 0 <= k < fired.len() implies (#[trigger] fired[k]).eid < eids.len()
        && c.error_models@.contains_key(eids[fired[k].eid as int]) && attached_cid(fired[k], eids, c.error_models@) is Some by {
        assert(fired[k] == errors[subgraph[k] as int]);
    }
    law_region_mechanisms_take_effect(fired, eids, c.error_models@, claim.committing_cids@);
    fired.filter_lemma(f);
    assert forall|j: int| 0 <= j < mechanisms.len() implies exists|k: int|
        0 <= k < subgraph.len() && errors[(#[trigger] subgraph[k]) as int] == #[trigger] mechanisms[j] && f(mechanisms[j]) by {
        let m = fired.filter(f)[j];
        assert(f(m));
        assert(fired.filter(f).contains(m));
        fired.lemma_filter_contains_rev(f, m);
        let k = fired.index_of(m);
        assert(errors[subgraph[k] as int] == mechanisms[j]);
    }
    law_known_mechanisms_have_detectors(context, mechanisms, mechanisms.len() as int);
    let list = detectors_flipped(c, numbered, mechanisms)->0;
    assert forall|d: int| 0 <= d < list.len() implies detector_exists(c.check_models@, #[trigger] list[d]) by {
        let at = lemma_detectors_come_from_mechanisms(context, mechanisms, mechanisms.len() as int, d);
        let m = mechanisms[at.0];
        assert(context.detectors_of(m)->0[at.1] == list[d]);
    }
}

} // verus!
