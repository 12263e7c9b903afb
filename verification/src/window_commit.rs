//! Committing a window: the states that its gadgets go through, and what the
//! mechanisms of the commit region do to the syndromes that later windows see.
use crate::bin::{errors_view, ErrorModelType, ErrorSpec, RemoteCheck, RemoteCheckModel};
use crate::bit_vector::{flip_bit, BitVector};
use crate::collections::{IdMap, IdSet};
use crate::dem_log::PendingSpec;
use crate::frames::mechanism_of;
use crate::hypergraph::{context_of, ErrorIndex, ProjectionContext};
use crate::network::{CheckModel, ErrorModel, Gadget, GadgetState};
use crate::registry::Registry;
use crate::relative::{law_error_model_is_owned_by_its_gadget, ExpandedGadget, RelativeMapping};
use vstd::prelude::*;

verus! {

// ---------------------------------------------------------------------------
// States
// ---------------------------------------------------------------------------

/// Two gadgets that differ in their states only.
pub open spec fn same_but_state(a: Gadget, b: Gadget) -> bool {
    &&& a.instance == b.instance
    &&& a.outcomes == b.outcomes
    &&& a.decode_ready == b.decode_ready
    &&& a.binding_cid == b.binding_cid
    &&& a.outputs == b.outputs
    &&& a.pauli_frame == b.pauli_frame
    &&& a.is_free_hop == b.is_free_hop
}

/// The gadgets differ in their states only, which are the given ones.
pub open spec fn states_become(before: Map<u64, Gadget>, after: Map<u64, Gadget>, state: spec_fn(u64) -> GadgetState) -> bool {
    &&& after.dom() == before.dom()
    &&& forall|g: u64| #[trigger] before.contains_key(g) ==> same_but_state(before[g], after[g]) && after[g].state == state(g)
}

/// The state of a gadget in a window that `leader` claims: the commit region is being
/// decoded by the leader, and so is what was free in the rest of the window.
pub open spec fn claimed_state(before: Map<u64, Gadget>, region: Set<u64>, window: Set<u64>, leader: u64, g: u64) -> GadgetState {
    if region.contains(g) || (window.contains(g) && before[g].state == GadgetState::Uncommitted) {
        GadgetState::Decoding { leader_gid: leader }
    } else {
        before[g].state
    }
}

/// The gadgets after `leader` claimed a window.
pub open spec fn claimed(
    before: Map<u64, Gadget>,
    after: Map<u64, Gadget>,
    region: Set<u64>,
    window: Set<u64>,
    leader: u64,
) -> bool {
    states_become(before, after, |g: u64| claimed_state(before, region, window, leader, g))
}

/// The state of a gadget after the decode of a window: the commit region is committed,
/// and what the leader held of the rest is free again.
pub open spec fn finished_state(before: Map<u64, Gadget>, region: Set<u64>, window: Set<u64>, leader: u64, g: u64) -> GadgetState {
    if region.contains(g) {
        GadgetState::Committed
    } else if window.contains(g) && before[g].state == (GadgetState::Decoding { leader_gid: leader }) {
        GadgetState::Uncommitted
    } else {
        before[g].state
    }
}

/// The gadgets after the decode of a window.
pub open spec fn finished(
    before: Map<u64, Gadget>,
    after: Map<u64, Gadget>,
    region: Set<u64>,
    window: Set<u64>,
    leader: u64,
) -> bool {
    states_become(before, after, |g: u64| finished_state(before, region, window, leader, g))
}

/// Writes the states of the listed gadgets that exist: those of the commit region get
/// `in_region`, the others get `free_to` if they are in state `free_from`.
fn write_states(
    gadgets: &mut Registry<Gadget>,
    ids: &Vec<u64>,
    region: &IdSet,
    in_region: GadgetState,
    free_from: GadgetState,
    free_to: GadgetState,
)
    requires
        old(gadgets).wf(),
        ids@.no_duplicates(),
    ensures
        final(gadgets).wf(),
        states_become(
            old(gadgets)@,
            final(gadgets)@,
            |g: u64|
                if !ids@.contains(g) {
                    old(gadgets)@[g].state
                } else if region@.contains(g) {
                    in_region
                } else if old(gadgets)@[g].state == free_from {
                    free_to
                } else {
                    old(gadgets)@[g].state
                },
        ),
{
    let ghost before = gadgets@;
    let ghost target = |g: u64|
        if !ids@.contains(g) {
            before[g].state
        } else if region@.contains(g) {
            in_region
        } else if before[g].state == free_from {
            free_to
        } else {
            before[g].state
        };
    let mut i: usize = 0;
    while i < ids.len()
        invariant
            i <= ids@.len(),
            gadgets.wf(),
            ids@.no_duplicates(),
            gadgets@.dom() == before.dom(),
            target == (|g: u64|
                if !ids@.contains(g) {
                    before[g].state
                } else if region@.contains(g) {
                    in_region
                } else if before[g].state == free_from {
                    free_to
                } else {
                    before[g].state
                }),
            forall|g: u64| #[trigger]
                before.contains_key(g) ==> same_but_state(before[g], gadgets@[g]) && gadgets@[g].state == (if ids@.take(
                    i as int,
                ).contains(g) {
                    target(g)
                } else {
                    before[g].state
                }),
        decreases ids@.len() - i,
    {
        let id: u64 = ids[i];
        let ghost now = gadgets@;
        proof {
            assert(ids@.take(i as int + 1) =~= ids@.take(i as int).push(id));
            assert(ids@.contains(id));
            assert(!ids@.take(i as int).contains(id)) by {
                if ids@.take(i as int).contains(id) {
                    let k = ids@.take(i as int).index_of(id);
                    assert(ids@[k] == ids@[i as int]);
                }
            }
            assert forall|g: u64| ids@.take(i as int + 1).contains(g) <==> (g == id || ids@.take(i as int).contains(g)) by {
                let more = ids@.take(i as int).push(id);
                if g == id {
                    assert(more[i as int] == id);
                }
                if ids@.take(i as int).contains(g) {
                    let k = ids@.take(i as int).index_of(g);
                    assert(more[k] == g);
                }
                if more.contains(g) && g != id {
                    let k = more.index_of(g);
                    assert(ids@.take(i as int)[k] == g);
                }
            }
        }
        if gadgets.contains_key(id) {
            let state = gadgets.get(id).unwrap().state;
            assert(before.dom().contains(id));
            assert(state == before[id].state);
            if region.contains(id) {
                gadgets.get_mut(id).state = in_region;
            } else if state == free_from {
                gadgets.get_mut(id).state = free_to;
            }
            assert(gadgets@.dom() =~= before.dom());
            assert forall|g: u64| #[trigger] before.contains_key(g) implies same_but_state(before[g], gadgets@[g])
                && gadgets@[g].state == (if ids@.take(i as int + 1).contains(g) {
                target(g)
            } else {
                before[g].state
            }) by {
                if g != id {
                    assert(gadgets@[g] == now[g]);
                }
            }
        } else {
            assert(!before.dom().contains(id));
        }
        i += 1;
    }
    proof {
        assert(ids@.take(ids@.len() as int) =~= ids@);
    }
}

/// Claims a window for `leader`.
pub fn claim_window(gadgets: &mut Registry<Gadget>, region: &IdSet, window: &IdSet, leader: u64)
    requires
        old(gadgets).wf(),
        region@.subset_of(window@),
    ensures
        final(gadgets).wf(),
        claimed(old(gadgets)@, final(gadgets)@, region@, window@, leader),
{
    let ids = window.items();
    let decoding = GadgetState::Decoding { leader_gid: leader };
    proof {
        lemma_items(ids@, window@);
    }
    write_states(gadgets, &ids, region, decoding, GadgetState::Uncommitted, decoding);
}

/// Ends the decode of a window of `leader`.
pub fn finish_window(gadgets: &mut Registry<Gadget>, region: &IdSet, window: &IdSet, leader: u64)
    requires
        old(gadgets).wf(),
        region@.subset_of(window@),
    ensures
        final(gadgets).wf(),
        finished(old(gadgets)@, final(gadgets)@, region@, window@, leader),
{
    let ids = window.items();
    proof {
        lemma_items(ids@, window@);
    }
    write_states(
        gadgets,
        &ids,
        region,
        GadgetState::Committed,
        GadgetState::Decoding { leader_gid: leader },
        GadgetState::Uncommitted,
    );
}

/// A list of the members of a set holds the members.
proof fn lemma_items(ids: Seq<u64>, set: Set<u64>)
    requires
        ids.to_set() == set,
    ensures
        forall|g: u64| #[trigger] ids.contains(g) <==> set.contains(g),
{
    assert forall|g: u64| #[trigger] ids.contains(g) <==> set.contains(g) by {
        assert(ids.to_set().contains(g) <==> ids.contains(g));
    }
}

/// A window that is claimed and then finished has its commit region committed, and
/// everything else as it was.
pub proof fn law_claim_then_finish_commits_region(
    before: Map<u64, Gadget>,
    during: Map<u64, Gadget>,
    after: Map<u64, Gadget>,
    region: Set<u64>,
    window: Set<u64>,
    leader: u64,
    g: u64,
)
    requires
        claimed(before, during, region, window, leader),
        finished(during, after, region, window, leader),
        before.contains_key(g),
        before[g].state != (GadgetState::Decoding { leader_gid: leader }),
    ensures
        after.contains_key(g),
        same_but_state(before[g], after[g]),
        region.contains(g) ==> after[g].state == GadgetState::Committed,
        !region.contains(g) ==> after[g].state == before[g].state,
{
    assert(during.dom().contains(g));
}

/// While a window is claimed, everything in it that was free is held by its leader: no
/// other window that contains such a gadget can be claimed.
pub proof fn law_claims_are_exclusive(
    before: Map<u64, Gadget>,
    during: Map<u64, Gadget>,
    region: Set<u64>,
    window: Set<u64>,
    leader: u64,
    g: u64,
)
    requires
        claimed(before, during, region, window, leader),
        before.contains_key(g),
        window.contains(g),
        before[g].state == GadgetState::Uncommitted,
    ensures
        during[g].state == (GadgetState::Decoding { leader_gid: leader }),
{
}

/// A committed gadget stays committed, whatever window is claimed or finished, as long
/// as it is in no commit region again.
pub proof fn law_committed_is_terminal(
    before: Map<u64, Gadget>,
    after: Map<u64, Gadget>,
    region: Set<u64>,
    window: Set<u64>,
    leader: u64,
    g: u64,
)
    requires
        claimed(before, after, region, window, leader) || finished(before, after, region, window, leader),
        before.contains_key(g),
        before[g].state == GadgetState::Committed,
        !region.contains(g),
    ensures
        after[g].state == GadgetState::Committed,
{
}

// ---------------------------------------------------------------------------
// Mechanisms that take effect
// ---------------------------------------------------------------------------

/// The mechanisms that a parity factor names.
pub fn fired_errors(subgraph: &Vec<u64>, errors: &Vec<ErrorIndex>) -> (fired: Option<Vec<ErrorIndex>>)
    ensures
        fired is Some <==> forall|k: int| 0 <= k < subgraph@.len() ==> (#[trigger] subgraph@[k]) < errors@.len(),
        fired matches Some(list) ==> list@ == subgraph@.map_values(|ei: u64| errors@[ei as int]),
{
    let mut list: Vec<ErrorIndex> = Vec::new();
    let mut k: usize = 0;
    while k < subgraph.len()
        invariant
            k <= subgraph@.len(),
            forall|i: int| 0 <= i < k ==> (#[trigger] subgraph@[i]) < errors@.len(),
            list@ =~= subgraph@.map_values(|ei: u64| errors@[ei as int]).take(k as int),
        decreases subgraph@.len() - k,
    {
        let ei: u64 = subgraph[k];
        if ei >= errors.len() as u64 {
            assert(subgraph@[k as int] >= errors@.len());
            return None;
        }
        list.push(errors[ei as usize]);
        k += 1;
    }
    assert(list@ =~= subgraph@.map_values(|ei: u64| errors@[ei as int]));
    Some(list)
}

/// The check model that the error model of a mechanism is attached to. None if it is
/// not known.
pub open spec fn attached_cid(index: ErrorIndex, global_eid_of: Seq<u64>, error_models: Map<u64, ErrorModel>) -> Option<u64> {
    if index.eid < global_eid_of.len() && error_models.contains_key(global_eid_of[index.eid as int]) {
        Some(error_models[global_eid_of[index.eid as int]].instance.cid)
    } else {
        None
    }
}

/// Those of the first `n` mechanisms that belong to the commit region.
pub open spec fn committed_upto(
    fired: Seq<ErrorIndex>,
    global_eid_of: Seq<u64>,
    error_models: Map<u64, ErrorModel>,
    committing: Set<u64>,
    n: int,
) -> Seq<ErrorIndex>
    decreases n,
{
    if n <= 0 {
        Seq::empty()
    } else {
        let before = committed_upto(fired, global_eid_of, error_models, committing, n - 1);
        match attached_cid(fired[n - 1], global_eid_of, error_models) {
            Some(cid) => if committing.contains(cid) {
                before.push(fired[n - 1])
            } else {
                before
            },
            None => before,
        }
    }
}

/// Selects the mechanisms that belong to the commit region; only these take effect.
/// `None` if an error model is not known.
pub fn committed_errors(
    fired: &Vec<ErrorIndex>,
    mapping: &RelativeMapping,
    error_models: &Registry<ErrorModel>,
    committing_cids: &IdSet,
) -> (committed: Option<Vec<ErrorIndex>>)
    requires
        error_models.wf(),
    ensures
        committed is Some <==> forall|k: int|
            0 <= k < fired@.len() ==> attached_cid(#[trigger] fired@[k], mapping.global_eid_of@, error_models@) is Some,
        committed matches Some(list) ==> list@ == committed_upto(
            fired@,
            mapping.global_eid_of@,
            error_models@,
            committing_cids@,
            fired@.len() as int,
        ),
        committed matches Some(list) ==> list@ == fired@.filter(
            |m: ErrorIndex| committing_cids@.contains(error_models@[mapping.global_eid_of@[m.eid as int]].instance.cid),
        ),
{
    let mut list: Vec<ErrorIndex> = Vec::new();
    let mut k: usize = 0;
    while k < fired.len()
        invariant
            k <= fired@.len(),
            error_models.wf(),
            forall|i: int|
                0 <= i < k ==> attached_cid(#[trigger] fired@[i], mapping.global_eid_of@, error_models@) is Some,
            list@ == committed_upto(fired@, mapping.global_eid_of@, error_models@, committing_cids@, k as int),
        decreases fired@.len() - k,
    {
        let index = fired[k];
        if index.eid >= mapping.global_eid_of.len() as u64 {
            assert(attached_cid(fired@[k as int], mapping.global_eid_of@, error_models@) is None);
            return None;
        }
        let Some(error_model) = error_models.get(mapping.global_eid_of[index.eid as usize]) else {
            assert(attached_cid(fired@[k as int], mapping.global_eid_of@, error_models@) is None);
            return None;
        };
        if committing_cids.contains(error_model.instance.cid) {
            list.push(index);
        }
        k += 1;
    }
    proof {
        law_region_mechanisms_take_effect(fired@, mapping.global_eid_of@, error_models@, committing_cids@);
    }
    Some(list)
}

/// Of the fired mechanisms exactly those take effect whose error model is attached to a
/// check model of the commit region, in the order in which they fired.
pub proof fn law_region_mechanisms_take_effect(
    fired: Seq<ErrorIndex>,
    global_eid_of: Seq<u64>,
    error_models: Map<u64, ErrorModel>,
    committing: Set<u64>,
)
    requires
        forall|k: int| 0 <= k < fired.len() ==> (#[trigger] fired[k]).eid < global_eid_of.len(),
        forall|k: int| 0 <= k < fired.len() ==> error_models.contains_key(global_eid_of[(#[trigger] fired[k]).eid as int]),
    ensures
        committed_upto(fired, global_eid_of, error_models, committing, fired.len() as int) == fired.filter(
            |m: ErrorIndex| committing.contains(error_models[global_eid_of[m.eid as int]].instance.cid),
        ),
        forall|k: int|
            0 <= k < committed_upto(fired, global_eid_of, error_models, committing, fired.len() as int).len()
                ==> committing.contains(
                error_models[global_eid_of[(#[trigger] committed_upto(
                    fired,
                    global_eid_of,
                    error_models,
                    committing,
                    fired.len() as int,
                )[k]).eid as int]].instance.cid,
            ),
{
    let f = |m: ErrorIndex| committing.contains(error_models[global_eid_of[m.eid as int]].instance.cid);
    lemma_committed_filter(fired, global_eid_of, error_models, committing, fired.len() as int);
    assert(fired.take(fired.len() as int) =~= fired);
    fired.filter_lemma(f);
}

proof fn lemma_committed_filter(
    fired: Seq<ErrorIndex>,
    global_eid_of: Seq<u64>,
    error_models: Map<u64, ErrorModel>,
    committing: Set<u64>,
    n: int,
)
    requires
        0 <= n <= fired.len(),
        forall|k: int| 0 <= k < fired.len() ==> (#[trigger] fired[k]).eid < global_eid_of.len(),
        forall|k: int| 0 <= k < fired.len() ==> error_models.contains_key(global_eid_of[(#[trigger] fired[k]).eid as int]),
    ensures
        committed_upto(fired, global_eid_of, error_models, committing, n) == fired.take(n).filter(
            |m: ErrorIndex| committing.contains(error_models[global_eid_of[m.eid as int]].instance.cid),
        ),
    decreases n,
{
    reveal(Seq::filter);
    if n > 0 {
        lemma_committed_filter(fired, global_eid_of, error_models, committing, n - 1);
        assert(fired.take(n).drop_last() =~= fired.take(n - 1));
        assert(fired.take(n).last() == fired[n - 1]);
    } else {
        assert(fired.take(n) =~= Seq::<ErrorIndex>::empty());
    }
}

// ---------------------------------------------------------------------------
// Syndromes
// ---------------------------------------------------------------------------

/// A check of a mechanism, seen from a window.
pub enum Seen {
    /// the check is invalid
    Fault,
    /// the check is outside the window
    Outside,
    /// this check of this check model
    Detector(u64, u64),
}

/// Where a check of a mechanism lies: a check of the error model's own check model, or
/// one of a remote check model that the window has.
pub open spec fn seen(
    own_cid: u64,
    remotes: Seq<Option<u64>>,
    slots: Seq<Option<RemoteCheckModel>>,
    local_cid_of: Map<u64, usize>,
    check: RemoteCheck,
) -> Seen {
    match check.remote_check_model {
        None => Seen::Detector(own_cid, check.check_index),
        Some(ri) => if ri >= remotes.len() || ri >= slots.len() {
            Seen::Fault
        } else {
            match remotes[ri as int] {
                Some(cid) => if !local_cid_of.contains_key(cid) {
                    Seen::Outside
                } else {
                    match slots[ri as int] {
                        Some(slot) => if check.check_index + slot.check_bias > u64::MAX {
                            Seen::Fault
                        } else {
                            Seen::Detector(cid, (check.check_index + slot.check_bias) as u64)
                        },
                        None => Seen::Fault,
                    }
                },
                None => Seen::Outside,
            }
        },
    }
}

/// The detectors of the first `n` checks of a mechanism that the window has. None if a
/// check is invalid.
pub open spec fn detectors_upto(
    own_cid: u64,
    remotes: Seq<Option<u64>>,
    slots: Seq<Option<RemoteCheckModel>>,
    local_cid_of: Map<u64, usize>,
    checks: Seq<RemoteCheck>,
    n: int,
) -> Option<Seq<(u64, u64)>>
    decreases n,
{
    if n <= 0 {
        Some(Seq::empty())
    } else {
        match detectors_upto(own_cid, remotes, slots, local_cid_of, checks, n - 1) {
            None => None,
            Some(before) => match seen(own_cid, remotes, slots, local_cid_of, checks[n - 1]) {
                Seen::Fault => None,
                Seen::Outside => Some(before),
                Seen::Detector(cid, index) => Some(before.push((cid, index))),
            },
        }
    }
}

proof fn lemma_detectors_settle(
    own_cid: u64,
    remotes: Seq<Option<u64>>,
    slots: Seq<Option<RemoteCheckModel>>,
    local_cid_of: Map<u64, usize>,
    checks: Seq<RemoteCheck>,
    n: int,
    m: int,
)
    requires
        n <= m,
        detectors_upto(own_cid, remotes, slots, local_cid_of, checks, n) is None,
    ensures
        detectors_upto(own_cid, remotes, slots, local_cid_of, checks, m) is None,
    decreases m - n,
{
    if n < m {
        lemma_detectors_settle(own_cid, remotes, slots, local_cid_of, checks, n, m - 1);
    }
}

/// What the detectors of mechanisms depend on.
pub struct DetectorContext {
    pub program: Seq<ExpandedGadget>,
    pub global_eid_of: Seq<u64>,
    pub owners: Seq<usize>,
    pub eid_bias: Seq<usize>,
    pub local_cid_of: Map<u64, usize>,
    pub error_models: Map<u64, ErrorModel>,
    pub error_model_types: Map<u64, ErrorModelType>,
}

impl DetectorContext {
    /// The position of the error model of a mechanism: its gadget, and its place there.
    pub open spec fn place(self, index: ErrorIndex) -> Option<(int, int)> {
        if index.eid < self.owners.len() && self.owners[index.eid as int] < self.program.len()
            && self.owners[index.eid as int] < self.eid_bias.len() {
            let owner = self.owners[index.eid as int] as int;
            let k = index.eid - self.eid_bias[owner];
            if 0 <= k < self.program[owner].error_models@.len() {
                Some((owner, k))
            } else {
                None
            }
        } else {
            None
        }
    }

    /// The detectors that a mechanism flips inside the window. None if something about it
    /// is not known or invalid.
    pub open spec fn detectors_of(self, index: ErrorIndex) -> Option<Seq<(u64, u64)>> {
        match (mechanism_of(index, self.global_eid_of, self.error_models, self.error_model_types), self.place(index)) {
            (Some(error), Some((owner, k))) => {
                let model = self.error_models[self.global_eid_of[index.eid as int]];
                detectors_upto(
                    model.instance.cid,
                    self.program[owner].error_models@[k].remote_check_models@,
                    model.modified_remote_check_models@,
                    self.local_cid_of,
                    error.checks,
                    error.checks.len() as int,
                )
            },
            _ => None,
        }
    }

    /// The detectors that the first `n` mechanisms flip.
    pub open spec fn all_detectors(self, mechanisms: Seq<ErrorIndex>, n: int) -> Option<Seq<(u64, u64)>>
        decreases n,
    {
        if n <= 0 {
            Some(Seq::empty())
        } else {
            match (self.all_detectors(mechanisms, n - 1), self.detectors_of(mechanisms[n - 1])) {
                (Some(before), Some(more)) => Some(before + more),
                _ => None,
            }
        }
    }
}

proof fn lemma_all_detectors_settle(context: DetectorContext, mechanisms: Seq<ErrorIndex>, n: int, m: int)
    requires
        n <= m,
        context.all_detectors(mechanisms, n) is None,
    ensures
        context.all_detectors(mechanisms, m) is None,
    decreases m - n,
{
    if n < m {
        lemma_all_detectors_settle(context, mechanisms, n, m - 1);
    }
}

/// Lists the detectors of one mechanism.
fn list_detectors(
    own_cid: u64,
    remotes: &Vec<Option<u64>>,
    slots: &Vec<Option<RemoteCheckModel>>,
    local_cid_of: &IdMap,
    checks: &Vec<RemoteCheck>,
) -> (detectors: Option<Vec<(u64, u64)>>)
    ensures
        match detectors_upto(own_cid, remotes@, slots@, local_cid_of@, checks@, checks@.len() as int) {
            Some(expected) => detectors matches Some(list) && list@ == expected,
            None => detectors is None,
        },
{
    let mut list: Vec<(u64, u64)> = Vec::new();
    let mut n: usize = 0;
    while n < checks.len()
        invariant
            n <= checks@.len(),
            detectors_upto(own_cid, remotes@, slots@, local_cid_of@, checks@, n as int) == Some(list@),
        decreases checks@.len() - n,
    {
        let check = checks[n];
        proof {
            if detectors_upto(own_cid, remotes@, slots@, local_cid_of@, checks@, n as int + 1) is None {
                lemma_detectors_settle(
                    own_cid,
                    remotes@,
                    slots@,
                    local_cid_of@,
                    checks@,
                    n as int + 1,
                    checks@.len() as int,
                );
            }
        }
        match check.remote_check_model {
            None => {
                list.push((own_cid, check.check_index));
            },
            Some(ri) => {
                if ri >= remotes.len() as u64 || ri >= slots.len() as u64 {
                    return None;
                }
                if let Some(cid) = remotes[ri as usize] {
                    if local_cid_of.get(cid).is_some() {
                        let Some(slot) = slots[ri as usize] else {
                            return None;
                        };
                        match check.check_index.checked_add(slot.check_bias) {
                            Some(index) => {
                                list.push((cid, index));
                            },
                            None => {
                                return None;
                            },
                        }
                    }
                }
            },
        }
        n += 1;
    }
    Some(list)
}

/// The context of a decode.
pub open spec fn detector_context(
    program: Seq<ExpandedGadget>,
    mapping: RelativeMapping,
    error_models: Map<u64, ErrorModel>,
    error_model_types: Map<u64, ErrorModelType>,
) -> DetectorContext {
    DetectorContext {
        program,
        global_eid_of: mapping.global_eid_of@,
        owners: mapping.local_gid_of_local_eid@,
        eid_bias: mapping.local_eid_bias@,
        local_cid_of: mapping.local_cid_of@,
        error_models,
        error_model_types,
    }
}

/// Lists the detectors that mechanisms flip inside the window, as often as they do.
/// `None` if something about them is not known or invalid.
pub fn flipped_detectors(
    mechanisms: &Vec<ErrorIndex>,
    program: &Vec<ExpandedGadget>,
    mapping: &RelativeMapping,
    error_models: &Registry<ErrorModel>,
    error_model_types: &Registry<ErrorModelType>,
) -> (detectors: Option<Vec<(u64, u64)>>)
    requires
        error_models.wf(),
        error_model_types.wf(),
    ensures
        match detector_context(program@, *mapping, error_models@, error_model_types@).all_detectors(
            mechanisms@,
            mechanisms@.len() as int,
        ) {
            Some(expected) => detectors matches Some(list) && list@ == expected,
            None => detectors is None,
        },
{
    let ghost context = detector_context(program@, *mapping, error_models@, error_model_types@);
    let mut list: Vec<(u64, u64)> = Vec::new();
    let mut n: usize = 0;
    while n < mechanisms.len()
        invariant
            n <= mechanisms@.len(),
            error_models.wf(),
            error_model_types.wf(),
            context == detector_context(program@, *mapping, error_models@, error_model_types@),
            context.all_detectors(mechanisms@, n as int) == Some(list@),
        decreases mechanisms@.len() - n,
    {
        let index = mechanisms[n];
        proof {
            if context.all_detectors(mechanisms@, n as int + 1) is None {
                lemma_all_detectors_settle(context, mechanisms@, n as int + 1, mechanisms@.len() as int);
            }
        }
        if index.eid >= mapping.global_eid_of.len() as u64 || index.eid >= mapping.local_gid_of_local_eid.len() as u64 {
            return None;
        }
        let Some(error_model) = error_models.get(mapping.global_eid_of[index.eid as usize]) else {
            return None;
        };
        let Some(error_model_type) = error_model_types.get(error_model.instance.etype) else {
            return None;
        };
        if index.error_index >= error_model_type.errors.len() as u64 {
            return None;
        }
        let owner: usize = mapping.local_gid_of_local_eid[index.eid as usize];
        if owner >= program.len() || owner >= mapping.local_eid_bias.len() {
            return None;
        }
        let bias: usize = mapping.local_eid_bias[owner];
        if index.eid < bias as u64 {
            return None;
        }
        let k: u64 = index.eid - bias as u64;
        if k >= program[owner].error_models.len() as u64 {
            return None;
        }
        let error = &error_model_type.errors[index.error_index as usize];
        assert(errors_view(error_model_type.errors@)[index.error_index as int] == error@);
        let Some(mut more) = list_detectors(
            error_model.instance.cid,
            &program[owner].error_models[k as usize].remote_check_models,
            &error_model.modified_remote_check_models,
            &mapping.local_cid_of,
            &error.checks,
        ) else {
            return None;
        };
        list.append(&mut more);
        n += 1;
    }
    Some(list)
}

/// Whether a detector occurs an odd number of times.
pub open spec fn pair_parity(list: Seq<(u64, u64)>, cid: u64, index: u64) -> bool
    decreases list.len(),
{
    if list.len() == 0 {
        false
    } else {
        pair_parity(list.drop_last(), cid, index) != (list.last() == (cid, index))
    }
}

/// A detector is a check of a check model with a known syndrome.
pub open spec fn detector_exists(check_models: Map<u64, CheckModel>, detector: (u64, u64)) -> bool {
    &&& check_models.contains_key(detector.0)
    &&& check_models[detector.0].syndrome matches Some(bits)
    &&& bits.wf()
    &&& detector.1 < bits.size
}

/// Two check models that differ in their syndromes only.
pub open spec fn same_but_syndrome(a: CheckModel, b: CheckModel) -> bool {
    &&& a.instance == b.instance
    &&& a.attaching_eid_vec == b.attaching_eid_vec
    &&& a.modified_remote_gadgets == b.modified_remote_gadgets
    &&& a.expanded_remote_gadgets == b.expanded_remote_gadgets
    &&& a.referring_eids == b.referring_eids
}

/// A syndrome with every listed detector flipped, as often as it is listed.
pub open spec fn flipped_syndrome(before: Option<BitVector>, after: Option<BitVector>, list: Seq<(u64, u64)>, cid: u64) -> bool {
    match (before, after) {
        (Some(a), Some(b)) => {
            &&& a.wf() ==> b.wf()
            &&& b.size == a.size
            &&& a.wf() ==> b@ == Seq::new(a@.len(), |i: int| a@[i] != pair_parity(list, cid, i as u64))
        },
        (None, None) => true,
        _ => false,
    }
}

/// The check models with every listed detector flipped.
pub open spec fn all_flipped(before: Map<u64, CheckModel>, after: Map<u64, CheckModel>, list: Seq<(u64, u64)>) -> bool {
    &&& after.dom() == before.dom()
    &&& forall|cid: u64| #[trigger]
        before.contains_key(cid) ==> same_but_syndrome(before[cid], after[cid]) && flipped_syndrome(
            before[cid].syndrome,
            after[cid].syndrome,
            list,
            cid,
        )
}

/// Whether all bytes of a vector are there.
fn is_wf(bits: &BitVector) -> (ok: bool)
    ensures
        ok == bits.wf(),
{
    let count: u64 = bits.size / 8 + (if bits.size % 8 == 0 {
        0
    } else {
        1
    });
    bits.data.len() as u64 == count && bits.size <= usize::MAX as u64
}

/// Whether every listed detector exists.
fn all_exist(check_models: &Registry<CheckModel>, list: &Vec<(u64, u64)>) -> (yes: bool)
    requires
        check_models.wf(),
    ensures
        yes == (forall|k: int| 0 <= k < list@.len() ==> detector_exists(check_models@, #[trigger] list@[k])),
{
    let mut k: usize = 0;
    while k < list.len()
        invariant
            k <= list@.len(),
            check_models.wf(),
            forall|i: int| 0 <= i < k ==> detector_exists(check_models@, #[trigger] list@[i]),
        decreases list@.len() - k,
    {
        let (cid, index) = list[k];
        let ok = match check_models.get(cid) {
            Some(check_model) => match &check_model.syndrome {
                Some(bits) => is_wf(bits) && index < bits.size,
                None => false,
            },
            None => false,
        };
        if !ok {
            assert(!detector_exists(check_models@, list@[k as int]));
            return false;
        }
        k += 1;
    }
    true
}

/// Flips the listed detectors in the syndromes of their check models. If one of them
/// does not exist, nothing is flipped and the result is false.
pub fn apply_flips(check_models: &mut Registry<CheckModel>, list: &Vec<(u64, u64)>) -> (ok: bool)
    requires
        old(check_models).wf(),
    ensures
        final(check_models).wf(),
        ok == (forall|k: int| 0 <= k < list@.len() ==> detector_exists(old(check_models)@, #[trigger] list@[k])),
        ok ==> all_flipped(old(check_models)@, final(check_models)@, list@),
        !ok ==> final(check_models)@ == old(check_models)@,
{
    if !all_exist(check_models, list) {
        return false;
    }
    let ghost before = check_models@;
    let mut k: usize = 0;
    assert(list@.take(0) =~= Seq::<(u64, u64)>::empty());
    proof {
        assert forall|cid: u64| #[trigger] before.contains_key(cid) implies flipped_syndrome(
            before[cid].syndrome,
            before[cid].syndrome,
            list@.take(0),
            cid,
        ) by {
            if let Some(a) = before[cid].syndrome {
                assert(a@ =~= Seq::new(a@.len(), |i: int| a@[i] != pair_parity(list@.take(0), cid, i as u64)));
            }
        }
    }
    while k < list.len()
        invariant
            k <= list@.len(),
            check_models.wf(),
            forall|i: int| 0 <= i < list@.len() ==> detector_exists(before, #[trigger] list@[i]),
            all_flipped(before, check_models@, list@.take(k as int)),
        decreases list@.len() - k,
    {
        let (cid, index) = list[k];
        let ghost now = check_models@;
        let ghost part = list@.take(k as int);
        proof {
            assert(detector_exists(before, list@[k as int]));
            assert(now.dom().contains(cid));
            assert(list@.take(k as int + 1) =~= part.push((cid, index)));
            assert(part.push((cid, index)).drop_last() =~= part);
        }
        let check_model = check_models.get_mut(cid);
        let mut taken: Option<BitVector> = None;
        std::mem::swap(&mut taken, &mut check_model.syndrome);
        if let Some(mut bits) = taken {
            flip_bit(&mut bits, index);
            check_model.syndrome = Some(bits);
        }
        proof {
            assert(check_models@.dom() =~= before.dom());
            assert forall|c: u64| #[trigger] before.contains_key(c) implies same_but_syndrome(before[c], check_models@[c])
                && flipped_syndrome(before[c].syndrome, check_models@[c].syndrome, list@.take(k as int + 1), c) by {
                assert(flipped_syndrome(before[c].syndrome, now[c].syndrome, part, c));
                if let Some(a) = before[c].syndrome {
                    let b = check_models@[c].syndrome->0;
                    if a.wf() {
                        assert forall|i: int| 0 <= i < a@.len() implies #[trigger] b@[i] == (a@[i] != pair_parity(
                            list@.take(k as int + 1),
                            c,
                            i as u64,
                        )) by {
                            assert(now[c].syndrome->0@[i] == (a@[i] != pair_parity(part, c, i as u64)));
                            assert(i <= u64::MAX);
                            assert((i as u64) as int == i);
                        }
                        assert(b@ =~= Seq::new(
                            a@.len(),
                            |i: int| a@[i] != pair_parity(list@.take(k as int + 1), c, i as u64),
                        ));
                    }
                }
            }
        }
        k += 1;
    }
    assert(list@.take(list@.len() as int) =~= list@);
    true
}

proof fn lemma_pairs_counted(list: Seq<(u64, u64)>, cid: u64, index: u64)
    ensures
        pair_parity(list, cid, index) == (list.filter(|d: (u64, u64)| d == (cid, index)).len() % 2 == 1),
    decreases list.len(),
{
    reveal(Seq::filter);
    if list.len() > 0 {
        lemma_pairs_counted(list.drop_last(), cid, index);
    }
}

/// A check of a check model is inverted exactly if it is listed an odd number of times.
pub proof fn law_listed_detectors_are_flipped(
    before: Map<u64, CheckModel>,
    after: Map<u64, CheckModel>,
    list: Seq<(u64, u64)>,
    cid: u64,
    i: u64,
)
    requires
        all_flipped(before, after, list),
        before.contains_key(cid),
        before[cid].syndrome is Some,
        before[cid].syndrome->0.wf(),
        i < before[cid].syndrome->0.size,
    ensures
        after.contains_key(cid),
        after[cid].syndrome is Some,
        after[cid].syndrome->0.size == before[cid].syndrome->0.size,
        after[cid].syndrome->0@[i as int] == (before[cid].syndrome->0@[i as int] != (list.filter(
            |d: (u64, u64)| d == (cid, i),
        ).len() % 2 == 1)),
{
    assert(after.dom().contains(cid));
    lemma_pairs_counted(list, cid, i);
}

/// A check model none of whose checks is listed keeps its syndrome.
pub proof fn law_unlisted_syndromes_stay(
    before: Map<u64, CheckModel>,
    after: Map<u64, CheckModel>,
    list: Seq<(u64, u64)>,
    cid: u64,
)
    requires
        all_flipped(before, after, list),
        before.contains_key(cid),
        before[cid].syndrome is Some,
        before[cid].syndrome->0.wf(),
        forall|k: int| 0 <= k < list.len() ==> (#[trigger] list[k]).0 != cid,
    ensures
        after[cid].syndrome is Some,
        after[cid].syndrome->0@ == before[cid].syndrome->0@,
{
    let (a, b) = (before[cid].syndrome->0, after[cid].syndrome->0);
    assert(after.dom().contains(cid));
    assert forall|i: int| 0 <= i < a@.len() implies b@[i] == a@[i] by {
        let f = |d: (u64, u64)| d == (cid, i as u64);
        lemma_pairs_counted(list, cid, i as u64);
        list.filter_lemma(f);
        if list.filter(f).len() > 0 {
            let d = list.filter(f)[0];
            assert(f(d));
            assert(list.filter(f).contains(d));
            list.lemma_filter_contains_rev(f, d);
            let k = list.index_of(d);
        }
    }
    assert(b@ =~= a@);
}

/// Flipping the same detectors again restores the syndromes.
pub proof fn law_flipping_twice_is_identity(
    before: Map<u64, CheckModel>,
    during: Map<u64, CheckModel>,
    after: Map<u64, CheckModel>,
    list: Seq<(u64, u64)>,
    cid: u64,
)
    requires
        all_flipped(before, during, list),
        all_flipped(during, after, list),
        before.contains_key(cid),
        before[cid].syndrome is Some,
        before[cid].syndrome->0.wf(),
    ensures
        after[cid].syndrome is Some,
        after[cid].syndrome->0@ == before[cid].syndrome->0@,
{
    assert(during.dom().contains(cid));
    let a = before[cid].syndrome->0;
    let b = during[cid].syndrome->0;
    let c = after[cid].syndrome->0;
    assert(flipped_syndrome(before[cid].syndrome, during[cid].syndrome, list, cid));
    assert(flipped_syndrome(during[cid].syndrome, after[cid].syndrome, list, cid));
    assert forall|i: int| 0 <= i < a@.len() implies c@[i] == a@[i] by {
        assert(b@[i] == (a@[i] != pair_parity(list, cid, i as u64)));
        assert(c@[i] == (b@[i] != pair_parity(list, cid, i as u64)));
    }
    assert(c@ =~= a@);
}

proof fn lemma_detectors_listed(
    own_cid: u64,
    remotes: Seq<Option<u64>>,
    slots: Seq<Option<RemoteCheckModel>>,
    local_cid_of: Map<u64, usize>,
    checks: Seq<RemoteCheck>,
    n: int,
)
    requires
        0 <= n <= checks.len(),
        detectors_upto(own_cid, remotes, slots, local_cid_of, checks, n) is Some,
    ensures
        detectors_upto(own_cid, remotes, slots, local_cid_of, checks, n)->0 == checks.take(n).filter(
            |c: RemoteCheck|
                c.remote_check_model matches Some(ri) ==> remotes[ri as int] is Some && local_cid_of.contains_key(
                    remotes[ri as int]->0,
                ),
        ).map_values(
            |c: RemoteCheck|
                match c.remote_check_model {
                    Some(ri) => (remotes[ri as int]->0, (c.check_index + slots[ri as int]->0.check_bias) as u64),
                    None => (own_cid, c.check_index),
                },
        ),
    decreases n,
{
    reveal(Seq::filter);
    let inside = |c: RemoteCheck|
        c.remote_check_model matches Some(ri) ==> remotes[ri as int] is Some && local_cid_of.contains_key(
            remotes[ri as int]->0,
        );
    let detector = |c: RemoteCheck|
        match c.remote_check_model {
            Some(ri) => (remotes[ri as int]->0, (c.check_index + slots[ri as int]->0.check_bias) as u64),
            None => (own_cid, c.check_index),
        };
    if n > 0 {
        lemma_detectors_listed(own_cid, remotes, slots, local_cid_of, checks, n - 1);
        let (before, after) = (checks.take(n - 1), checks.take(n));
        assert(after.drop_last() =~= before);
        assert(after.last() == checks[n - 1]);
        if inside(checks[n - 1]) {
            assert(after.filter(inside) == before.filter(inside).push(checks[n - 1]));
            assert(after.filter(inside).map_values(detector) =~= before.filter(inside).map_values(detector).push(
                detector(checks[n - 1]),
            ));
        } else {
            assert(after.filter(inside) == before.filter(inside));
        }
    } else {
        assert(checks.take(n) =~= Seq::<RemoteCheck>::empty());
        assert(checks.take(n).filter(inside).map_values(detector) =~= Seq::<(u64, u64)>::empty());
    }
}

/// The detectors of a mechanism are its checks that the window has, in order: a check of
/// the own check model by its index, a check of a remote check model by its index counted
/// from the bias of the slot.
pub proof fn law_detectors_name_the_checks(
    own_cid: u64,
    remotes: Seq<Option<u64>>,
    slots: Seq<Option<RemoteCheckModel>>,
    local_cid_of: Map<u64, usize>,
    checks: Seq<RemoteCheck>,
)
    requires
        detectors_upto(own_cid, remotes, slots, local_cid_of, checks, checks.len() as int) is Some,
    ensures
        detectors_upto(own_cid, remotes, slots, local_cid_of, checks, checks.len() as int)->0 == checks.filter(
            |c: RemoteCheck|
                c.remote_check_model matches Some(ri) ==> remotes[ri as int] is Some && local_cid_of.contains_key(
                    remotes[ri as int]->0,
                ),
        ).map_values(
            |c: RemoteCheck|
                match c.remote_check_model {
                    Some(ri) => (remotes[ri as int]->0, (c.check_index + slots[ri as int]->0.check_bias) as u64),
                    None => (own_cid, c.check_index),
                },
        ),
{
    lemma_detectors_listed(own_cid, remotes, slots, local_cid_of, checks, checks.len() as int);
    assert(checks.take(checks.len() as int) =~= checks);
}

proof fn lemma_vertices_follow_detectors(
    context: ProjectionContext,
    own_cid: u64,
    checks: Seq<RemoteCheck>,
    n: int,
)
    requires
        0 <= n <= checks.len(),
        context.local_cid_of.contains_key(own_cid),
        context.local_start == Some(context.start_indices[context.local_cid_of[own_cid] as int] as int),
        context.project_upto(checks, n) is Vertices,
        detectors_upto(own_cid, context.remotes, context.slots, context.local_cid_of, checks, n) is Some,
    ensures
        ({
            let vertices = context.project_upto(checks, n)->Vertices_0;
            let detectors = detectors_upto(own_cid, context.remotes, context.slots, context.local_cid_of, checks, n)->0;
            &&& vertices.len() == detectors.len()
            &&& forall|i: int|
                0 <= i < vertices.len() ==> context.local_cid_of.contains_key((#[trigger] detectors[i]).0) && vertices[i]
                    == context.start_indices[context.local_cid_of[detectors[i].0] as int] + detectors[i].1
        }),
    decreases n,
{
    if n > 0 {
        lemma_vertices_follow_detectors(context, own_cid, checks, n - 1);
    }
}

/// The vertices of a mechanism in the hypergraph are those of the detectors that it flips
/// when it is committed: a detector is found at its index from the first vertex of its
/// check model.
pub proof fn law_vertices_are_those_of_the_detectors(
    gadget: ExpandedGadget,
    k: int,
    model: ErrorModel,
    local_cid_of: Map<u64, usize>,
    start_indices: Seq<usize>,
    committing_cids: Option<Set<u64>>,
    error: ErrorSpec,
)
    requires
        gadget.check_model is Some,
        gadget.check_model->0.cid == model.instance.cid,
        local_cid_of.contains_key(model.instance.cid),
        context_of(gadget, k, model, local_cid_of, start_indices, committing_cids).project(error) is Vertices,
        detectors_upto(
            model.instance.cid,
            gadget.error_models@[k].remote_check_models@,
            model.modified_remote_check_models@,
            local_cid_of,
            error.checks,
            error.checks.len() as int,
        ) is Some,
    ensures
        ({
            let vertices = context_of(gadget, k, model, local_cid_of, start_indices, committing_cids).project(
                error,
            )->Vertices_0;
            let detectors = detectors_upto(
                model.instance.cid,
                gadget.error_models@[k].remote_check_models@,
                model.modified_remote_check_models@,
                local_cid_of,
                error.checks,
                error.checks.len() as int,
            )->0;
            &&& vertices.len() == detectors.len()
            &&& forall|i: int|
                0 <= i < vertices.len() ==> local_cid_of.contains_key((#[trigger] detectors[i]).0) && vertices[i]
                    == start_indices[local_cid_of[detectors[i].0] as int] + detectors[i].1
        }),
{
    lemma_vertices_follow_detectors(
        context_of(gadget, k, model, local_cid_of, start_indices, committing_cids),
        model.instance.cid,
        error.checks,
        error.checks.len() as int,
    );
}

/// The edge that the log shows of a mechanism has the detectors that the mechanism flips
/// when it is committed, if the window has all of its check models.
pub proof fn law_log_shows_the_flipped_detectors(
    pending: PendingSpec,
    i: int,
    slots: Seq<Option<RemoteCheckModel>>,
    local_cid_of: Map<u64, usize>,
)
    requires
        0 <= i < pending.errors.len(),
        detectors_upto(
            pending.owning_cid,
            pending.resolved,
            slots,
            local_cid_of,
            pending.errors[i].checks,
            pending.errors[i].checks.len() as int,
        ) is Some,
        forall|k: int|
            0 <= k < pending.errors[i].checks.len() ==> (#[trigger] pending.errors[i].checks[k].remote_check_model matches Some(
                ri,
            ) ==> {
                &&& pending.resolved[ri as int] is Some
                &&& local_cid_of.contains_key(pending.resolved[ri as int]->0)
                &&& slots[ri as int] is Some
                &&& pending.check_bias[ri as int] == Some(slots[ri as int]->0.check_bias)
            }),
    ensures
        pending.edge_of(i).detectors == detectors_upto(
            pending.owning_cid,
            pending.resolved,
            slots,
            local_cid_of,
            pending.errors[i].checks,
            pending.errors[i].checks.len() as int,
        )->0,
{
    let checks = pending.errors[i].checks;
    lemma_log_detectors(pending, slots, local_cid_of, checks, checks.len() as int);
    assert(checks.take(checks.len() as int) =~= checks);
}

proof fn lemma_log_detectors(
    pending: PendingSpec,
    slots: Seq<Option<RemoteCheckModel>>,
    local_cid_of: Map<u64, usize>,
    checks: Seq<RemoteCheck>,
    n: int,
)
    requires
        0 <= n <= checks.len(),
        detectors_upto(pending.owning_cid, pending.resolved, slots, local_cid_of, checks, n) is Some,
        forall|k: int|
            0 <= k < checks.len() ==> (#[trigger] checks[k].remote_check_model matches Some(ri) ==> {
                &&& pending.resolved[ri as int] is Some
                &&& local_cid_of.contains_key(pending.resolved[ri as int]->0)
                &&& slots[ri as int] is Some
                &&& pending.check_bias[ri as int] == Some(slots[ri as int]->0.check_bias)
            }),
    ensures
        detectors_upto(pending.owning_cid, pending.resolved, slots, local_cid_of, checks, n)->0 == checks.take(n).map_values(
            |c: RemoteCheck| pending.detector_of(c),
        ),
    decreases n,
{
    let f = |c: RemoteCheck| pending.detector_of(c);
    if n > 0 {
        lemma_log_detectors(pending, slots, local_cid_of, checks, n - 1);
        assert(checks[n - 1].remote_check_model is Some || checks[n - 1].remote_check_model is None);
        assert(checks.take(n).map_values(f) =~= checks.take(n - 1).map_values(f).push(f(checks[n - 1])));
    } else {
        assert(checks.take(n).map_values(f) =~= Seq::<(u64, u64)>::empty());
    }
}

proof fn lemma_all_detectors_listed(context: DetectorContext, mechanisms: Seq<ErrorIndex>, n: int, d: (u64, u64))
    requires
        0 <= n <= mechanisms.len(),
        context.all_detectors(mechanisms, n) is Some,
    ensures
        context.all_detectors(mechanisms, n)->0.filter(|x: (u64, u64)| x == d).len() % 2 == mechanisms.take(n).filter(
            |m: ErrorIndex| context.detectors_of(m)->0.filter(|x: (u64, u64)| x == d).len() % 2 == 1,
        ).len() % 2,
        forall|k: int| 0 <= k < n ==> context.detectors_of(#[trigger] mechanisms[k]) is Some,
    decreases n,
{
    reveal(Seq::filter);
    let is_d = |x: (u64, u64)| x == d;
    let oddly = |m: ErrorIndex| context.detectors_of(m)->0.filter(|x: (u64, u64)| x == d).len() % 2 == 1;
    if n > 0 {
        lemma_all_detectors_listed(context, mechanisms, n - 1, d);
        let before = context.all_detectors(mechanisms, n - 1)->0;
        let more = context.detectors_of(mechanisms[n - 1])->0;
        Seq::filter_distributes_over_add(before, more, is_d);
        assert(mechanisms.take(n).drop_last() =~= mechanisms.take(n - 1));
        assert(mechanisms.take(n).last() == mechanisms[n - 1]);
        assert(context.all_detectors(mechanisms, n)->0 == before + more);
        assert(oddly(mechanisms[n - 1]) == (more.filter(is_d).len() % 2 == 1));
    } else {
        assert(mechanisms.take(n) =~= Seq::<ErrorIndex>::empty());
    }
}

/// Committed mechanisms invert a check exactly if an odd number of them have it an odd
/// number of times among their detectors.
pub proof fn law_committed_mechanisms_flip_their_detectors(
    context: DetectorContext,
    mechanisms: Seq<ErrorIndex>,
    before: Map<u64, CheckModel>,
    after: Map<u64, CheckModel>,
    cid: u64,
    i: u64,
)
    requires
        context.all_detectors(mechanisms, mechanisms.len() as int) is Some,
        all_flipped(before, after, context.all_detectors(mechanisms, mechanisms.len() as int)->0),
        before.contains_key(cid),
        before[cid].syndrome is Some,
        before[cid].syndrome->0.wf(),
        i < before[cid].syndrome->0.size,
    ensures
        after[cid].syndrome is Some,
        after[cid].syndrome->0@[i as int] == (before[cid].syndrome->0@[i as int] != (mechanisms.filter(
            |m: ErrorIndex| context.detectors_of(m)->0.filter(|x: (u64, u64)| x == (cid, i)).len() % 2 == 1,
        ).len() % 2 == 1)),
{
    let list = context.all_detectors(mechanisms, mechanisms.len() as int)->0;
    law_listed_detectors_are_flipped(before, after, list, cid, i);
    lemma_all_detectors_listed(context, mechanisms, mechanisms.len() as int, (cid, i));
    assert(mechanisms.take(mechanisms.len() as int) =~= mechanisms);
}

/// The mechanism with a number of a window flips the checks of the mechanism that the number
/// stands for, of error model `k` of gadget `i`, as far as the window has them.
pub proof fn law_numbered_mechanism_flips_its_own_checks(
    program: Seq<ExpandedGadget>,
    mapping: RelativeMapping,
    error_models: Map<u64, ErrorModel>,
    error_model_types: Map<u64, ErrorModelType>,
    i: int,
    k: int,
    index: ErrorIndex,
)
    requires
        mapping.numbers(program),
        0 <= i < program.len() <= usize::MAX,
        0 <= k < program[i].error_models@.len(),
        mapping.global_eid_of@.len() <= usize::MAX,
        index.eid == mapping.local_eid_bias@[i] + k,
        detector_context(program, mapping, error_models, error_model_types).detectors_of(index) is Some,
    ensures
        ({
            let model = error_models[program[i].error_models@[k].eid];
            let remotes = program[i].error_models@[k].remote_check_models@;
            detector_context(program, mapping, error_models, error_model_types).detectors_of(index)->0
                == error_model_types[model.instance.etype].errors@[index.error_index as int].checks@.filter(
                |c: RemoteCheck|
                    c.remote_check_model matches Some(ri) ==> remotes[ri as int] is Some
                        && mapping.local_cid_of@.contains_key(remotes[ri as int]->0),
            ).map_values(
                |c: RemoteCheck|
                    match c.remote_check_model {
                        Some(ri) => (
                            remotes[ri as int]->0,
                            (c.check_index + model.modified_remote_check_models@[ri as int]->0.check_bias) as u64,
                        ),
                        None => (model.instance.cid, c.check_index),
                    },
            )
        }),
{
    law_error_model_is_owned_by_its_gadget(mapping, program, i, k);
    let context = detector_context(program, mapping, error_models, error_model_types);
    assert(context.place(index) == Some((i, k)));
    let model = error_models[program[i].error_models@[k].eid];
    let checks = error_model_types[model.instance.etype].errors@[index.error_index as int].checks@;
    assert(mechanism_of(index, context.global_eid_of, error_models, error_model_types)->0.checks == checks);
    law_detectors_name_the_checks(
        model.instance.cid,
        program[i].error_models@[k].remote_check_models@,
        model.modified_remote_check_models@,
        mapping.local_cid_of@,
        checks,
    );
}

/// The detectors of a mechanism are known exactly if its remote checks name slots that there
/// are, and those that the window has can be counted from a bias.
pub proof fn law_valid_checks_have_detectors(
    own_cid: u64,
    remotes: Seq<Option<u64>>,
    slots: Seq<Option<RemoteCheckModel>>,
    local_cid_of: Map<u64, usize>,
    checks: Seq<RemoteCheck>,
    n: int,
)
    requires
        0 <= n <= checks.len(),
    ensures
        detectors_upto(own_cid, remotes, slots, local_cid_of, checks, n) is Some <==> forall|k: int|
            0 <= k < n ==> ((#[trigger] checks[k]).remote_check_model matches Some(ri) ==> {
                &&& ri < remotes.len()
                &&& ri < slots.len()
                &&& remotes[ri as int] is Some && local_cid_of.contains_key(remotes[ri as int]->0) ==> slots[ri as int] is Some
                    && checks[k].check_index + slots[ri as int]->0.check_bias <= u64::MAX
            }),
    decreases n,
{
    if n > 0 {
        law_valid_checks_have_detectors(own_cid, remotes, slots, local_cid_of, checks, n - 1);
        assert(checks[n - 1] == checks[n - 1]);
    }
}

/// The detectors of mechanisms are known exactly if those of each are.
pub proof fn law_known_mechanisms_have_detectors(context: DetectorContext, mechanisms: Seq<ErrorIndex>, n: int)
    requires
        0 <= n <= mechanisms.len(),
    ensures
        context.all_detectors(mechanisms, n) is Some <==> forall|k: int|
            0 <= k < n ==> context.detectors_of(#[trigger] mechanisms[k]) is Some,
    decreases n,
{
    if n > 0 {
        law_known_mechanisms_have_detectors(context, mechanisms, n - 1);
        assert(mechanisms[n - 1] == mechanisms[n - 1]);
    }
}

/// A numbered mechanism whose remote checks name slots that there are has detectors.
pub proof fn law_numbered_mechanism_is_known(
    program: Seq<ExpandedGadget>,
    mapping: RelativeMapping,
    error_models: Map<u64, ErrorModel>,
    error_model_types: Map<u64, ErrorModelType>,
    i: int,
    k: int,
    index: ErrorIndex,
)
    requires
        mapping.numbers(program),
        0 <= i < program.len() <= usize::MAX,
        0 <= k < program[i].error_models@.len(),
        mapping.global_eid_of@.len() <= usize::MAX,
        index.eid == mapping.local_eid_bias@[i] + k,
        ({
            let eid = program[i].error_models@[k].eid;
            let model = error_models[eid];
            let remotes = program[i].error_models@[k].remote_check_models@;
            let slots = model.modified_remote_check_models@;
            let errors = error_model_types[model.instance.etype].errors@;
            &&& error_models.contains_key(eid)
            &&& error_model_types.contains_key(model.instance.etype)
            &&& index.error_index < errors.len()
            &&& forall|c: int|
                0 <= c < errors[index.error_index as int].checks@.len() ==> ((
                #[trigger] errors[index.error_index as int].checks@[c]).remote_check_model matches Some(ri) ==> {
                    &&& ri < remotes.len()
                    &&& ri < slots.len()
                    &&& slots[ri as int] is Some
                    &&& errors[index.error_index as int].checks@[c].check_index + slots[ri as int]->0.check_bias <= u64::MAX
                })
        }),
    ensures
        detector_context(program, mapping, error_models, error_model_types).detectors_of(index) is Some,
{
    law_error_model_is_owned_by_its_gadget(mapping, program, i, k);
    let context = detector_context(program, mapping, error_models, error_model_types);
    assert(context.place(index) == Some((i, k)));
    let model = error_models[program[i].error_models@[k].eid];
    let checks = error_model_types[model.instance.etype].errors@[index.error_index as int].checks@;
    assert(mechanism_of(index, context.global_eid_of, error_models, error_model_types)->0.checks == checks);
    law_valid_checks_have_detectors(
        model.instance.cid,
        program[i].error_models@[k].remote_check_models@,
        model.modified_remote_check_models@,
        mapping.local_cid_of@,
        checks,
        checks.len() as int,
    );
}

} // verus!
