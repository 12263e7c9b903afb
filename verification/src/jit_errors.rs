//! Error models of compiled gadgets: what open checks at the outputs end up in, and
//! the checks that each error mechanism flips.
use crate::bin;
use crate::bin::{Connector, Error, ErrorModel, ErrorModelModifier, ErrorModelType, ProbabilityModifier, RemoteCheck, RemoteCheckModel, WILDCARD};
use crate::collections::{difference_of, toggled_pair, PairSet};
use crate::jit::JitError;
use crate::jit_compiler::{all_refs_view, input_refs_view, CheckRefs, CheckRefsSpec, JitCompiler, JitGadgetState};
use crate::registry::Registry;
use crate::sequencer::{
    bias_used, explicit, list_stands, ref_before, ref_valid, refs_sorted, refs_stand_for, sequence_sets, sets_view, unbiased, RemoteRef,
};
use vstd::prelude::*;

verus! {

// ---------------------------------------------------------------------------
// Open checks at the outputs
// ---------------------------------------------------------------------------

/// The values of a list of sets.
pub open spec fn pair_sets_view(sets: Seq<PairSet>) -> Seq<Set<(u64, u64)>> {
    sets.map_values(|s: PairSet| s@)
}

/// The first `n` checks as checks of gadget `peer`.
pub open spec fn own_checks(finished: Seq<u64>, peer: u64, n: int) -> Set<(u64, u64)>
    decreases n,
{
    if n <= 0 {
        Set::empty()
    } else {
        own_checks(finished, peer, n - 1).insert((peer, finished[n - 1]))
    }
}

/// The parity of a set and the first `n` of the listed sets.
pub open spec fn parity_of(start: Set<(u64, u64)>, list: Seq<u64>, sets: Seq<Set<(u64, u64)>>, n: int) -> Set<(u64, u64)>
    decreases n,
{
    if n <= 0 {
        start
    } else {
        difference_of(parity_of(start, list, sets, n - 1), sets[list[n - 1] as int])
    }
}

/// The checks that an open check ends up in, where gadget `peer` uses it in the given
/// checks and its own open checks end up in `sets`.
pub open spec fn resolved_check(refs: CheckRefsSpec, peer: u64, sets: Seq<Set<(u64, u64)>>) -> Set<(u64, u64)> {
    parity_of(
        own_checks(refs.finished, peer, refs.finished.len() as int),
        refs.unfinished,
        sets,
        refs.unfinished.len() as int,
    )
}

/// What is known of the open checks of an output.
#[verifier::ext_equal]
pub enum PortSpec {
    /// it is not connected
    WaitsForOutput,
    /// its peer does not know yet what its own open checks end up in
    WaitsForPeer(u64),
    /// it leads to checks that do not exist
    Dangling,
    /// the checks that each open check ends up in
    Resolved(Seq<Set<(u64, u64)>>),
}

/// Some open check goes on to an open check of the peer.
pub open spec fn goes_on(rows: Seq<CheckRefsSpec>) -> bool {
    exists|m: int| 0 <= m < rows.len() && (#[trigger] rows[m]).unfinished.len() > 0
}

/// Every open check of the peer that is used exists.
pub open spec fn indices_exist(rows: Seq<CheckRefsSpec>, count: int) -> bool {
    forall|m: int, k: int|
        0 <= m < rows.len() && 0 <= k < rows[m].unfinished.len() ==> #[trigger] rows[m].unfinished[k] < count
}

/// The checks that the peer of an output made of its own open checks, where known.
pub open spec fn peer_sets(gadgets: Map<u64, JitGadgetState>, peer: u64) -> Option<Seq<Set<(u64, u64)>>> {
    match gadgets[peer].output_virtual_checks {
        Some(sets) => Some(pair_sets_view(sets@)),
        None => None,
    }
}

/// What is known of the open checks of an output with the given connection.
pub open spec fn port_resolution(gadgets: Map<u64, JitGadgetState>, output: Option<Connector>) -> PortSpec {
    match output {
        None => PortSpec::WaitsForOutput,
        Some(c) => {
            if !gadgets.contains_key(c.gid) || c.port >= gadgets[c.gid].input_virtual_check_map@.len() {
                PortSpec::Dangling
            } else {
                let rows = all_refs_view(gadgets[c.gid].input_virtual_check_map@)[c.port as int];
                let none = Seq::<Set<(u64, u64)>>::empty();
                if !goes_on(rows) {
                    PortSpec::Resolved(rows.map_values(|r: CheckRefsSpec| resolved_check(r, c.gid, none)))
                } else {
                    match peer_sets(gadgets, c.gid) {
                        None => PortSpec::WaitsForPeer(c.gid),
                        Some(sets) => if indices_exist(rows, sets.len() as int) {
                            PortSpec::Resolved(rows.map_values(|r: CheckRefsSpec| resolved_check(r, c.gid, sets)))
                        } else {
                            PortSpec::Dangling
                        },
                    }
                }
            }
        },
    }
}

/// The open checks of the first `n` outputs, where all are resolved.
pub open spec fn resolved_upto(gadgets: Map<u64, JitGadgetState>, outputs: Seq<Option<Connector>>, n: int) -> Seq<Set<(u64, u64)>>
    decreases n,
{
    if n <= 0 {
        Seq::empty()
    } else {
        resolved_upto(gadgets, outputs, n - 1) + port_resolution(gadgets, outputs[n - 1])->Resolved_0
    }
}

/// Output `p` is the first that is not resolved.
pub open spec fn first_open(gadgets: Map<u64, JitGadgetState>, outputs: Seq<Option<Connector>>, p: int) -> bool {
    &&& 0 <= p < outputs.len()
    &&& !(port_resolution(gadgets, outputs[p]) is Resolved)
    &&& forall|q: int| 0 <= q < p ==> port_resolution(gadgets, #[trigger] outputs[q]) is Resolved
}

/// What resolving the outputs of a gadget comes to.
pub enum Resolution {
    /// this output is to be connected first
    WaitsForOutput(u64),
    /// the outputs of this peer are to be resolved first
    WaitsForPeer(u64),
    /// an output leads to checks that do not exist
    Dangling,
    /// the checks that each open check ends up in
    Resolved(Vec<PairSet>),
}

/// The checks that an open check ends up in.
fn resolve_check(refs: &CheckRefs, peer: u64, sets: &Vec<PairSet>) -> (set: PairSet)
    requires
        forall|k: int| 0 <= k < refs.unfinished@.len() ==> #[trigger] refs.unfinished@[k] < sets@.len(),
    ensures
        set@ == resolved_check(refs@, peer, pair_sets_view(sets@)),
{
    let ghost views = pair_sets_view(sets@);
    let mut set = PairSet::new();
    let mut n: usize = 0;
    while n < refs.finished.len()
        invariant
            n <= refs.finished@.len(),
            set@ == own_checks(refs.finished@, peer, n as int),
        decreases refs.finished@.len() - n,
    {
        set.insert((peer, refs.finished[n]));
        n += 1;
    }
    let ghost start = set@;
    n = 0;
    while n < refs.unfinished.len()
        invariant
            n <= refs.unfinished@.len(),
            views == pair_sets_view(sets@),
            forall|k: int| 0 <= k < refs.unfinished@.len() ==> #[trigger] refs.unfinished@[k] < sets@.len(),
            set@ == parity_of(start, refs.unfinished@, views, n as int),
        decreases refs.unfinished@.len() - n,
    {
        let index: u64 = refs.unfinished[n];
        assert(index < sets.len());
        assert(views[index as int] == sets@[index as int]@);
        set.toggle_all(&sets[index as usize]);
        n += 1;
    }
    set
}

/// Whether some open check goes on to an open check of the peer.
fn any_goes_on(rows: &Vec<CheckRefs>) -> (yes: bool)
    ensures
        yes == goes_on(input_refs_view(rows@)),
{
    let mut m: usize = 0;
    while m < rows.len()
        invariant
            m <= rows@.len(),
            forall|i: int| 0 <= i < m ==> (#[trigger] input_refs_view(rows@)[i]).unfinished.len() == 0,
        decreases rows@.len() - m,
    {
        assert(input_refs_view(rows@)[m as int] == rows@[m as int]@);
        if rows[m].unfinished.len() > 0 {
            return true;
        }
        m += 1;
    }
    false
}

/// Whether every open check of the peer that is used exists.
fn all_indices_exist(rows: &Vec<CheckRefs>, count: usize) -> (yes: bool)
    ensures
        yes == indices_exist(input_refs_view(rows@), count as int),
{
    let ghost views = input_refs_view(rows@);
    let mut m: usize = 0;
    while m < rows.len()
        invariant
            m <= rows@.len(),
            views == input_refs_view(rows@),
            forall|i: int, k: int| 0 <= i < m && 0 <= k < views[i].unfinished.len() ==> #[trigger] views[i].unfinished[k] < count,
        decreases rows@.len() - m,
    {
        assert(views[m as int] == rows@[m as int]@);
        let mut k: usize = 0;
        while k < rows[m].unfinished.len()
            invariant
                m < rows@.len(),
                k <= rows@[m as int].unfinished@.len(),
                views[m as int] == rows@[m as int]@,
                forall|j: int| 0 <= j < k ==> #[trigger] views[m as int].unfinished[j] < count,
                views == input_refs_view(rows@),
            decreases rows@[m as int].unfinished@.len() - k,
        {
            if rows[m].unfinished[k] >= count as u64 {
                assert(views[m as int].unfinished[k as int] >= count);
                return false;
            }
            k += 1;
        }
        m += 1;
    }
    true
}

/// Appends the checks that the open checks of an input of `peer` end up in.
fn resolve_rows(resolved: &mut Vec<PairSet>, rows: &Vec<CheckRefs>, peer: u64, sets: &Vec<PairSet>)
    requires
        indices_exist(input_refs_view(rows@), sets@.len() as int),
    ensures
        pair_sets_view(final(resolved)@) == pair_sets_view(old(resolved)@) + input_refs_view(rows@).map_values(
            |r: CheckRefsSpec| resolved_check(r, peer, pair_sets_view(sets@)),
        ),
{
    let ghost before = pair_sets_view(resolved@);
    let ghost views = input_refs_view(rows@);
    let ghost all = views.map_values(|r: CheckRefsSpec| resolved_check(r, peer, pair_sets_view(sets@)));
    let mut m: usize = 0;
    assert(before + all.take(0) =~= before);
    while m < rows.len()
        invariant
            m <= rows@.len(),
            views == input_refs_view(rows@),
            indices_exist(views, sets@.len() as int),
            all == views.map_values(|r: CheckRefsSpec| resolved_check(r, peer, pair_sets_view(sets@))),
            pair_sets_view(resolved@) =~= before + all.take(m as int),
        decreases rows@.len() - m,
    {
        assert(views[m as int] == rows@[m as int]@);
        assert forall|k: int| 0 <= k < rows@[m as int].unfinished@.len() implies #[trigger] rows@[m as int].unfinished@[k] < sets@.len() by {
            assert(views[m as int].unfinished[k] < sets@.len());
        }
        let set = resolve_check(&rows[m], peer, sets);
        let ghost earlier = resolved@;
        resolved.push(set);
        proof {
            assert(pair_sets_view(resolved@) =~= pair_sets_view(earlier).push(set@));
            assert(all.take(m as int + 1) =~= all.take(m as int).push(set@));
        }
        m += 1;
    }
    assert(all.take(m as int) =~= all);
}

/// Resolves the open checks of a gadget with the given outputs, up to the first output
/// whose open checks cannot be resolved yet.
pub fn resolve_outputs(gadgets: &Registry<JitGadgetState>, outputs: &Vec<Option<Connector>>) -> (resolution: Resolution)
    requires
        gadgets.wf(),
    ensures
        match resolution {
            Resolution::WaitsForOutput(p) => first_open(gadgets@, outputs@, p as int) && port_resolution(
                gadgets@,
                outputs@[p as int],
            ) == PortSpec::WaitsForOutput,
            Resolution::WaitsForPeer(peer) => exists|p: int| #[trigger]
                first_open(gadgets@, outputs@, p) && port_resolution(gadgets@, outputs@[p]) == PortSpec::WaitsForPeer(peer),
            Resolution::Dangling => exists|p: int| #[trigger]
                first_open(gadgets@, outputs@, p) && port_resolution(gadgets@, outputs@[p]) == PortSpec::Dangling,
            Resolution::Resolved(sets) => {
                &&& forall|q: int| 0 <= q < outputs@.len() ==> port_resolution(gadgets@, #[trigger] outputs@[q]) is Resolved
                &&& pair_sets_view(sets@) == resolved_upto(gadgets@, outputs@, outputs@.len() as int)
            },
        },
{
    let mut resolved: Vec<PairSet> = Vec::new();
    let mut p: usize = 0;
    while p < outputs.len()
        invariant
            gadgets.wf(),
            p <= outputs@.len(),
            forall|q: int| 0 <= q < p ==> port_resolution(gadgets@, #[trigger] outputs@[q]) is Resolved,
            pair_sets_view(resolved@) =~= resolved_upto(gadgets@, outputs@, p as int),
        decreases outputs@.len() - p,
    {
        let ghost status = port_resolution(gadgets@, outputs@[p as int]);
        let Some(connector) = outputs[p] else {
            assert(first_open(gadgets@, outputs@, p as int));
            return Resolution::WaitsForOutput(p as u64);
        };
        let Some(peer) = gadgets.get(connector.gid) else {
            assert(first_open(gadgets@, outputs@, p as int));
            return Resolution::Dangling;
        };
        if connector.port >= peer.input_virtual_check_map.len() as u64 {
            assert(first_open(gadgets@, outputs@, p as int));
            return Resolution::Dangling;
        }
        let rows = &peer.input_virtual_check_map[connector.port as usize];
        assert(all_refs_view(peer.input_virtual_check_map@)[connector.port as int] == input_refs_view(rows@));
        if !any_goes_on(rows) {
            let none: Vec<PairSet> = Vec::new();
            proof {
                let views = input_refs_view(rows@);
                assert forall|m: int, k: int| 0 <= m < views.len() && 0 <= k < views[m].unfinished.len() implies #[trigger] views[m].unfinished[k] < 0 by {
                    assert(!goes_on(views));
                    assert(views[m].unfinished.len() > 0);
                }
                assert(pair_sets_view(none@) =~= Seq::<Set<(u64, u64)>>::empty());
            }
            resolve_rows(&mut resolved, rows, connector.gid, &none);
        } else {
            let Some(sets) = &peer.output_virtual_checks else {
                assert(first_open(gadgets@, outputs@, p as int));
                return Resolution::WaitsForPeer(connector.gid);
            };
            assert(pair_sets_view(sets@).len() == sets@.len());
            if !all_indices_exist(rows, sets.len()) {
                assert(first_open(gadgets@, outputs@, p as int));
                return Resolution::Dangling;
            }
            resolve_rows(&mut resolved, rows, connector.gid, sets);
        }
        p += 1;
    }
    Resolution::Resolved(resolved)
}

// ---------------------------------------------------------------------------
// Error mechanisms
// ---------------------------------------------------------------------------

/// The first `n` checks toggled into a set.
pub open spec fn toggled_checks(finished: Seq<u64>, gid: u64, n: int) -> Set<(u64, u64)>
    decreases n,
{
    if n <= 0 {
        Set::empty()
    } else {
        toggled_pair(toggled_checks(finished, gid, n - 1), (gid, finished[n - 1]))
    }
}

/// The checks that a mechanism of gadget `gid` flips: its finished checks, and what its
/// open checks end up in.
pub open spec fn flipped_checks(finished: Seq<u64>, unfinished: Seq<u64>, sets: Seq<Set<(u64, u64)>>, gid: u64) -> Set<(u64, u64)> {
    parity_of(toggled_checks(finished, gid, finished.len() as int), unfinished, sets, unfinished.len() as int)
}

/// Expands the checks of a mechanism.
fn expand_error_checks(error: &JitError, sets: &Vec<PairSet>, gid: u64) -> (set: PairSet)
    requires
        forall|k: int| 0 <= k < error.unfinished_checks@.len() ==> #[trigger] error.unfinished_checks@[k] < sets@.len(),
    ensures
        set@ == flipped_checks(error.finished_checks@, error.unfinished_checks@, pair_sets_view(sets@), gid),
        forall|p: (u64, u64)| #[trigger]
            set@.contains(p) <==> (error.finished_checks@.filter(|c: u64| (gid, c) == p).len()
                + error.unfinished_checks@.filter(|u: u64| sets@[u as int]@.contains(p)).len()) % 2 == 1,
{
    let ghost views = pair_sets_view(sets@);
    let mut set = PairSet::new();
    let mut n: usize = 0;
    while n < error.finished_checks.len()
        invariant
            n <= error.finished_checks@.len(),
            set@ == toggled_checks(error.finished_checks@, gid, n as int),
        decreases error.finished_checks@.len() - n,
    {
        set.toggle((gid, error.finished_checks[n]));
        n += 1;
    }
    let ghost start = set@;
    n = 0;
    while n < error.unfinished_checks.len()
        invariant
            n <= error.unfinished_checks@.len(),
            views == pair_sets_view(sets@),
            forall|k: int| 0 <= k < error.unfinished_checks@.len() ==> #[trigger] error.unfinished_checks@[k] < sets@.len(),
            set@ == parity_of(start, error.unfinished_checks@, views, n as int),
        decreases error.unfinished_checks@.len() - n,
    {
        let index: u64 = error.unfinished_checks[n];
        assert(index < sets.len());
        assert(views[index as int] == sets@[index as int]@);
        set.toggle_all(&sets[index as usize]);
        n += 1;
    }
    proof {
        assert forall|p: (u64, u64)| #[trigger] set@.contains(p) <==> (error.finished_checks@.filter(
            |c: u64| (gid, c) == p,
        ).len() + error.unfinished_checks@.filter(|u: u64| sets@[u as int]@.contains(p)).len()) % 2 == 1 by {
            law_flipped_checks_count_by_parity(error.finished_checks@, error.unfinished_checks@, views, gid, p);
            lemma_filters_agree(
                error.unfinished_checks@,
                |u: u64| views[u as int].contains(p),
                |u: u64| sets@[u as int]@.contains(p),
            );
        }
    }
    set
}

/// Predicates that agree on a list select the same of it.
proof fn lemma_filters_agree(list: Seq<u64>, f: spec_fn(u64) -> bool, g: spec_fn(u64) -> bool)
    requires
        forall|k: int| 0 <= k < list.len() ==> f(#[trigger] list[k]) == g(list[k]),
    ensures
        list.filter(f) == list.filter(g),
    decreases list.len(),
{
    reveal(Seq::filter);
    if list.len() > 0 {
        let rest = list.drop_last();
        assert forall|k: int| 0 <= k < rest.len() implies f(#[trigger] rest[k]) == g(rest[k]) by {
            assert(rest[k] == list[k]);
        }
        assert(list.last() == list[list.len() - 1]);
        lemma_filters_agree(rest, f, g);
    }
}

proof fn lemma_parity_counts(start: Set<(u64, u64)>, list: Seq<u64>, sets: Seq<Set<(u64, u64)>>, n: int, p: (u64, u64))
    requires
        0 <= n <= list.len(),
    ensures
        parity_of(start, list, sets, n).contains(p) == (start.contains(p) != (list.take(n).filter(
            |u: u64| sets[u as int].contains(p),
        ).len() % 2 == 1)),
    decreases n,
{
    reveal(Seq::filter);
    if n > 0 {
        lemma_parity_counts(start, list, sets, n - 1, p);
        assert(list.take(n).drop_last() =~= list.take(n - 1));
        assert(list.take(n).last() == list[n - 1]);
    } else {
        assert(list.take(n) =~= Seq::<u64>::empty());
    }
}

proof fn lemma_toggles_count(finished: Seq<u64>, gid: u64, n: int, p: (u64, u64))
    requires
        0 <= n <= finished.len(),
    ensures
        toggled_checks(finished, gid, n).contains(p) == (finished.take(n).filter(|c: u64| (gid, c) == p).len() % 2 == 1),
    decreases n,
{
    reveal(Seq::filter);
    if n > 0 {
        lemma_toggles_count(finished, gid, n - 1, p);
        assert(finished.take(n).drop_last() =~= finished.take(n - 1));
        assert(finished.take(n).last() == finished[n - 1]);
    } else {
        assert(finished.take(n) =~= Seq::<u64>::empty());
    }
}

/// A check is flipped by a mechanism exactly if an odd number of its contributions hold it:
/// the finished checks that it lists, and what each of the open checks that it lists ends
/// up in.
pub proof fn law_flipped_checks_count_by_parity(
    finished: Seq<u64>,
    unfinished: Seq<u64>,
    sets: Seq<Set<(u64, u64)>>,
    gid: u64,
    p: (u64, u64),
)
    ensures
        flipped_checks(finished, unfinished, sets, gid).contains(p) <==> (finished.filter(|c: u64| (gid, c) == p).len()
            + unfinished.filter(|u: u64| sets[u as int].contains(p)).len()) % 2 == 1,
{
    let start = toggled_checks(finished, gid, finished.len() as int);
    lemma_toggles_count(finished, gid, finished.len() as int, p);
    lemma_parity_counts(start, unfinished, sets, unfinished.len() as int, p);
    assert(finished.take(finished.len() as int) =~= finished);
    assert(unfinished.take(unfinished.len() as int) =~= unfinished);
}

proof fn lemma_own_checks(finished: Seq<u64>, peer: u64, n: int, p: (u64, u64))
    requires
        0 <= n <= finished.len(),
    ensures
        own_checks(finished, peer, n).contains(p) <==> exists|k: int| 0 <= k < n && (peer, #[trigger] finished[k]) == p,
    decreases n,
{
    if n > 0 {
        lemma_own_checks(finished, peer, n - 1, p);
        if own_checks(finished, peer, n).contains(p) {
            if p == (peer, finished[n - 1]) {
                assert((peer, finished[n - 1]) == p);
            }
        }
    }
}

/// An open check ends up in a check exactly if an odd number of its uses lead there: the
/// finished checks of the peer that use it, and what each open check of the peer that
/// uses it ends up in.
pub proof fn law_resolved_check_counts_by_parity(refs: CheckRefsSpec, peer: u64, sets: Seq<Set<(u64, u64)>>, p: (u64, u64))
    ensures
        resolved_check(refs, peer, sets).contains(p) == ((p.0 == peer && refs.finished.contains(p.1)) != (
        refs.unfinished.filter(|u: u64| sets[u as int].contains(p)).len() % 2 == 1)),
{
    let n = refs.finished.len() as int;
    lemma_own_checks(refs.finished, peer, n, p);
    lemma_parity_counts(own_checks(refs.finished, peer, n), refs.unfinished, sets, refs.unfinished.len() as int, p);
    assert(refs.unfinished.take(refs.unfinished.len() as int) =~= refs.unfinished);
    if p.0 == peer && refs.finished.contains(p.1) {
        let k = refs.finished.index_of(p.1);
        assert((peer, refs.finished[k]) == p);
    }
}

/// The check that a reference of an error model stands for.
pub open spec fn referred(r: RemoteCheck, remotes: Seq<RemoteCheckModel>, gid: u64) -> (u64, int) {
    match r.remote_check_model {
        None => (gid, r.check_index as int),
        Some(i) => (remotes[i as int].absolute_cid->0, r.check_index + remotes[i as int].check_bias),
    }
}

/// A reference that names a remote check model names one that there is.
pub open spec fn reference_resolves(r: RemoteCheck, remotes: Seq<RemoteCheckModel>) -> bool {
    r.remote_check_model matches Some(i) ==> i < remotes.len() && remotes[i as int].absolute_cid is Some
}

/// A list of references stands for a set of checks.
pub open spec fn refers_to(list: Seq<RemoteCheck>, remotes: Seq<RemoteCheckModel>, gid: u64, set: Set<(u64, u64)>) -> bool {
    &&& forall|k: int| 0 <= k < list.len() ==> reference_resolves(#[trigger] list[k], remotes)
    &&& forall|k: int| 0 <= k < list.len() ==> crate::jit_checks::is_member(#[trigger] referred(list[k], remotes, gid), set)
    &&& forall|p: (u64, u64)| #[trigger]
        set.contains(p) ==> exists|k: int| 0 <= k < list.len() && #[trigger] referred(list[k], remotes, gid) == (p.0, p.1 as int)
}

/// The order of references: local ones first, then by remote check model, then by index,
/// each once.
pub open spec fn references_sorted(list: Seq<RemoteCheck>) -> bool {
    forall|i: int, j: int|
        0 <= i < j < list.len() ==> ref_before(
            RemoteRef { remote: list[i].remote_check_model, index: list[i].check_index },
            RemoteRef { remote: list[j].remote_check_model, index: list[j].check_index },
        )
}

/// A reference of an error model.
pub open spec fn reference_of(r: RemoteRef) -> RemoteCheck {
    RemoteCheck { remote_check_model: r.remote, check_index: r.index }
}

/// A remote check model that is named by its id.
pub open spec fn remote_check_model_of(id: u64, bias: u64) -> RemoteCheckModel {
    RemoteCheckModel {
        port: None,
        previous_remote_check_model: None,
        absolute_cid: Some(id),
        expecting_ctype: id,
        check_bias: bias,
    }
}

/// The remote check models with the given ids and biases.
pub open spec fn are_remote_check_models(remotes: Seq<RemoteCheckModel>, ids: Seq<u64>, minima: Seq<u64>) -> bool {
    &&& remotes.len() == ids.len()
    &&& forall|i: int| 0 <= i < ids.len() ==> #[trigger] remotes[i] == remote_check_model_of(ids[i], minima[i])
}

/// Some mechanism has the bias of remote check model `i` as its index.
pub open spec fn remote_model_used(errors: Seq<Error>, i: int) -> bool {
    exists|f: int|
        0 <= f < errors.len() && (#[trigger] errors[f]).checks@.contains(
            RemoteCheck { remote_check_model: Some(i as u64), check_index: 0 },
        )
}

/// A mechanism of an error model: it does what the mechanism of the gadget type does,
/// and flips the checks that this one flips. One that flips finished checks only keeps
/// their order.
pub open spec fn is_model_error(error: Error, jit: JitError, remotes: Seq<RemoteCheckModel>, sets: Seq<Set<(u64, u64)>>, gid: u64) -> bool {
    &&& error.residual@ == jit.residual@
    &&& error.readout_flips@ == jit.readout_flips@
    &&& error.probability == jit.probability
    &&& if jit.unfinished_checks@.len() == 0 {
        error.checks@ == jit.finished_checks@.map_values(|c: u64| RemoteCheck { remote_check_model: None, check_index: c })
    } else {
        refers_to(error.checks@, remotes, gid, flipped_checks(jit.finished_checks@, jit.unfinished_checks@, sets, gid))
            && references_sorted(error.checks@)
    }
}

/// The mechanisms of the error model of gadget `gid`, and its remote check models, each
/// with the least check used as its bias.
pub open spec fn are_model_errors(
    errors: Seq<Error>,
    remotes: Seq<RemoteCheckModel>,
    jit_errors: Seq<JitError>,
    sets: Seq<Set<(u64, u64)>>,
    gid: u64,
) -> bool {
    &&& errors.len() == jit_errors.len()
    &&& forall|f: int| 0 <= f < errors.len() ==> is_model_error(#[trigger] errors[f], jit_errors[f], remotes, sets, gid)
    &&& exists|ids: Seq<u64>, minima: Seq<u64>|
        ids.no_duplicates() && !ids.contains(gid) && minima.len() == ids.len() && #[trigger] are_remote_check_models(
            remotes,
            ids,
            minima,
        )
    &&& forall|i: int| 0 <= i < remotes.len() ==> #[trigger] remote_model_used(errors, i)
}

/// Counting from biases, with the biases in the remote check models, refers to the same
/// checks, in the same order.
proof fn lemma_unbiased_refers(
    refs: Seq<RemoteRef>,
    ids: Seq<u64>,
    minima: Seq<u64>,
    remotes: Seq<RemoteCheckModel>,
    gid: u64,
    set: Set<(u64, u64)>,
)
    requires
        minima.len() == ids.len(),
        refs_sorted(refs),
        forall|k: int| 0 <= k < refs.len() ==> ref_valid(#[trigger] refs[k], ids, minima),
        refs_stand_for(refs, ids, gid, set),
        are_remote_check_models(remotes, ids, minima),
    ensures
        refers_to(refs.map_values(|r: RemoteRef| reference_of(unbiased(r, minima))), remotes, gid, set),
        references_sorted(refs.map_values(|r: RemoteRef| reference_of(unbiased(r, minima)))),
{
    let list = refs.map_values(|r: RemoteRef| reference_of(unbiased(r, minima)));
    assert forall|k: int| 0 <= k < list.len() implies reference_resolves(#[trigger] list[k], remotes) && referred(
        list[k],
        remotes,
        gid,
    ) == (explicit(refs[k], ids, gid).0, explicit(refs[k], ids, gid).1 as int) by {
        assert(ref_valid(refs[k], ids, minima));
        if let Some(i) = refs[k].remote {
            assert(remotes[i as int] == remote_check_model_of(ids[i as int], minima[i as int]));
        }
    }
    assert forall|k: int| 0 <= k < list.len() implies crate::jit_checks::is_member(#[trigger] referred(list[k], remotes, gid), set) by {
        assert(reference_resolves(list[k], remotes));
        assert(set.contains(explicit(refs[k], ids, gid)));
    }
    assert forall|p: (u64, u64)| #[trigger] set.contains(p) implies exists|k: int|
        0 <= k < list.len() && #[trigger] referred(list[k], remotes, gid) == (p.0, p.1 as int) by {
        let k = choose|k: int| 0 <= k < refs.len() && #[trigger] explicit(refs[k], ids, gid) == p;
        assert(reference_resolves(list[k], remotes));
        assert(referred(list[k], remotes, gid) == (p.0, p.1 as int));
    }
    assert forall|i: int, j: int| 0 <= i < j < list.len() implies ref_before(
        RemoteRef { remote: list[i].remote_check_model, index: list[i].check_index },
        RemoteRef { remote: list[j].remote_check_model, index: list[j].check_index },
    ) by {
        assert(ref_before(refs[i], refs[j]));
        assert(ref_valid(refs[i], ids, minima));
        assert(ref_valid(refs[j], ids, minima));
    }
}

/// Every open check that a mechanism flips is resolved.
pub open spec fn error_resolves(error: JitError, count: int) -> bool {
    forall|k: int| 0 <= k < error.unfinished_checks@.len() ==> #[trigger] error.unfinished_checks@[k] < count
}

/// Whether every open check that the mechanisms flip is resolved.
fn errors_resolve(errors: &Vec<JitError>, count: usize) -> (yes: bool)
    ensures
        yes == (forall|f: int| 0 <= f < errors@.len() ==> error_resolves(#[trigger] errors@[f], count as int)),
{
    let mut f: usize = 0;
    while f < errors.len()
        invariant
            f <= errors@.len(),
            forall|g: int| 0 <= g < f ==> error_resolves(#[trigger] errors@[g], count as int),
        decreases errors@.len() - f,
    {
        let mut k: usize = 0;
        while k < errors[f].unfinished_checks.len()
            invariant
                f < errors@.len(),
                k <= errors@[f as int].unfinished_checks@.len(),
                forall|j: int| 0 <= j < k ==> #[trigger] errors@[f as int].unfinished_checks@[j] < count,
            decreases errors@[f as int].unfinished_checks@.len() - k,
        {
            if errors[f].unfinished_checks[k] >= count as u64 {
                assert(errors@[f as int].unfinished_checks@[k as int] >= count);
                assert(!error_resolves(errors@[f as int], count as int));
                return false;
            }
            k += 1;
        }
        f += 1;
    }
    true
}

/// The optional sets of checks that the mechanisms flip: none for a mechanism that
/// flips finished checks only.
spec fn error_sets(errors: Seq<JitError>, sets: Seq<Set<(u64, u64)>>, gid: u64) -> Seq<Option<Set<(u64, u64)>>> {
    errors.map_values(
        |e: JitError|
            if e.unfinished_checks@.len() == 0 {
                None
            } else {
                Some(flipped_checks(e.finished_checks@, e.unfinished_checks@, sets, gid))
            },
    )
}

/// The checks of a mechanism that flips finished checks only.
fn finished_only(finished: &Vec<u64>) -> (checks: Vec<RemoteCheck>)
    ensures
        checks@ == finished@.map_values(|c: u64| RemoteCheck { remote_check_model: None, check_index: c }),
{
    let mut checks: Vec<RemoteCheck> = Vec::new();
    let mut k: usize = 0;
    while k < finished.len()
        invariant
            k <= finished@.len(),
            checks@ =~= finished@.map_values(|c: u64| RemoteCheck { remote_check_model: None, check_index: c }).take(k as int),
        decreases finished@.len() - k,
    {
        checks.push(RemoteCheck { remote_check_model: None, check_index: finished[k] });
        k += 1;
    }
    checks
}

/// References as those of an error model.
fn to_checks(refs: &Vec<RemoteRef>) -> (checks: Vec<RemoteCheck>)
    ensures
        checks@ == refs@.map_values(|r: RemoteRef| reference_of(r)),
{
    let mut checks: Vec<RemoteCheck> = Vec::new();
    let mut k: usize = 0;
    while k < refs.len()
        invariant
            k <= refs@.len(),
            checks@ =~= refs@.map_values(|r: RemoteRef| reference_of(r)).take(k as int),
        decreases refs@.len() - k,
    {
        checks.push(RemoteCheck { remote_check_model: refs[k].remote, check_index: refs[k].index });
        k += 1;
    }
    checks
}

/// Builds the mechanisms of the error model of gadget `gid`, where its open checks end
/// up in `sets`. `None` if a mechanism flips an open check that there is not.
pub fn build_model_errors(jit_errors: &Vec<JitError>, sets: &Vec<PairSet>, gid: u64) -> (model: Option<(Vec<Error>, Vec<RemoteCheckModel>)>)
    ensures
        model is Some == (forall|f: int| 0 <= f < jit_errors@.len() ==> error_resolves(#[trigger] jit_errors@[f], sets@.len() as int)),
        model matches Some(m) ==> are_model_errors(m.0@, m.1@, jit_errors@, pair_sets_view(sets@), gid),
{
    if !errors_resolve(jit_errors, sets.len()) {
        return None;
    }
    let ghost views = pair_sets_view(sets@);
    let ghost expected = error_sets(jit_errors@, views, gid);
    let mut expanded: Vec<Option<PairSet>> = Vec::new();
    let mut n: usize = 0;
    while n < jit_errors.len()
        invariant
            n <= jit_errors@.len(),
            views == pair_sets_view(sets@),
            expected == error_sets(jit_errors@, views, gid),
            forall|f: int| 0 <= f < jit_errors@.len() ==> error_resolves(#[trigger] jit_errors@[f], sets@.len() as int),
            sets_view(expanded@) =~= expected.take(n as int),
        decreases jit_errors@.len() - n,
    {
        assert(error_resolves(jit_errors@[n as int], sets@.len() as int));
        let set: Option<PairSet> = if jit_errors[n].unfinished_checks.len() == 0 {
            None
        } else {
            Some(expand_error_checks(&jit_errors[n], sets, gid))
        };
        let ghost before = expanded@;
        expanded.push(set);
        proof {
            assert(sets_view(expanded@) =~= sets_view(before).push(sets_view(expanded@)[n as int]));
            assert(sets_view(expanded@)[n as int] == expected[n as int]);
        }
        n += 1;
    }
    let all = sequence_sets(&expanded, gid);
    let ghost ids = all.remotes.ids();
    let ghost minima = all.remotes.minima();
    proof {
        all.remotes.lemma_wf();
        assert(sets_view(expanded@) =~= expected);
    }
    let mut remotes: Vec<RemoteCheckModel> = Vec::new();
    let count: usize = all.remotes.len();
    let mut i: usize = 0;
    while i < count
        invariant
            i <= count,
            count == ids.len(),
            all.remotes.wf(),
            ids == all.remotes.ids(),
            minima == all.remotes.minima(),
            minima.len() == ids.len(),
            remotes@.len() == i,
            forall|k: int| 0 <= k < i ==> #[trigger] remotes@[k] == remote_check_model_of(ids[k], minima[k]),
        decreases count - i,
    {
        let id: u64 = all.remotes.id(i);
        remotes.push(
            RemoteCheckModel {
                port: None,
                previous_remote_check_model: None,
                absolute_cid: Some(id),
                expecting_ctype: id,
                check_bias: all.remotes.bias(i),
            },
        );
        i += 1;
    }
    assert(are_remote_check_models(remotes@, ids, minima));
    let mut errors: Vec<Error> = Vec::new();
    let mut f: usize = 0;
    while f < jit_errors.len()
        invariant
            f <= jit_errors@.len(),
            views == pair_sets_view(sets@),
            expected == error_sets(jit_errors@, views, gid),
            all.remotes.wf(),
            ids == all.remotes.ids(),
            minima == all.remotes.minima(),
            minima.len() == ids.len(),
            all.lists@.len() == jit_errors@.len(),
            forall|g: int| 0 <= g < jit_errors@.len() ==> #[trigger] list_stands(all.lists@, g, &all.remotes, gid, expected),
            are_remote_check_models(remotes@, ids, minima),
            errors@.len() == f,
            forall|g: int| 0 <= g < f ==> is_model_error(#[trigger] errors@[g], jit_errors@[g], remotes@, views, gid),
            forall|g: int|
                0 <= g < f && expected[g] is Some ==> (#[trigger] errors@[g]).checks@ == all.lists@[g]@.map_values(
                    |r: RemoteRef| reference_of(unbiased(r, minima)),
                ),
        decreases jit_errors@.len() - f,
    {
        assert(list_stands(all.lists@, f as int, &all.remotes, gid, expected));
        let jit = &jit_errors[f];
        let checks: Vec<RemoteCheck> = if jit.unfinished_checks.len() == 0 {
            finished_only(&jit.finished_checks)
        } else {
            let ghost refs = all.lists@[f as int]@;
            let mut own = bin::copy_vec(&all.lists[f]);
            all.remotes.unbias(&mut own);
            let checks = to_checks(&own);
            proof {
                assert(checks@ =~= refs.map_values(|r: RemoteRef| reference_of(unbiased(r, minima))));
                lemma_unbiased_refers(
                    refs,
                    ids,
                    minima,
                    remotes@,
                    gid,
                    flipped_checks(jit.finished_checks@, jit.unfinished_checks@, views, gid),
                );
            }
            checks
        };
        errors.push(
            Error {
                checks,
                residual: bin::copy_vec(&jit.residual),
                readout_flips: bin::copy_vec(&jit.readout_flips),
                probability: jit.probability,
            },
        );
        f += 1;
    }
    proof {
        assert forall|i: int| 0 <= i < remotes@.len() implies #[trigger] remote_model_used(errors@, i) by {
            assert(bias_used(all.lists@, &all.remotes, i));
            let x = RemoteRef { remote: Some(i as u64), index: minima[i] };
            let f = choose|f: int| 0 <= f < all.lists@.len() && (#[trigger] all.lists@[f])@.contains(x);
            assert(list_stands(all.lists@, f, &all.remotes, gid, expected));
            let k = all.lists@[f]@.index_of(x);
            assert(expected[f] is Some);
            assert(errors@[f].checks@[k] == reference_of(unbiased(x, minima)));
            assert(errors@[f].checks@.contains(RemoteCheck { remote_check_model: Some(i as u64), check_index: 0 }));
        }
        assert(!ids.contains(gid)) by {
            if ids.contains(gid) {
                let k = ids.index_of(gid);
                assert(ids[k] != gid);
            }
        }
        assert(ids.no_duplicates() && !ids.contains(gid) && minima.len() == ids.len() && are_remote_check_models(
            remotes@,
            ids,
            minima,
        ));
    }
    Some((errors, remotes))
}

/// What building the error model of a gadget comes to.
pub enum ErrorModelStep {
    /// this output of the gadget is to be connected first
    WaitsForOutput(u64),
    /// this peer is to resolve its open checks first
    WaitsForPeer(u64),
    /// a reference leads to something that does not exist
    Dangling,
    /// the error model
    Ready { error_model_type: ErrorModelType, error_model: ErrorModel },
}

impl JitCompiler {
    /// Two states that differ in what the open checks of one gadget end up in only.
    pub open spec fn published(&self, gid: u64, sets: Seq<Set<(u64, u64)>>, after: JitCompiler) -> bool {
        &&& after.jit_port_types == self.jit_port_types
        &&& after.jit_gadget_types == self.jit_gadget_types
        &&& after.current_gid == self.current_gid
        &&& after.waits == self.waits
        &&& after.gadgets@ == self.gadgets@.insert(gid, after.gadgets@[gid])
        &&& after.gadgets@[gid].gtype == self.gadgets@[gid].gtype
        &&& after.gadgets@[gid].outputs == self.gadgets@[gid].outputs
        &&& after.gadgets@[gid].output_checks == self.gadgets@[gid].output_checks
        &&& after.gadgets@[gid].input_virtual_check_map == self.gadgets@[gid].input_virtual_check_map
        &&& peer_sets(after.gadgets@, gid) == Some(sets)
    }

    /// The open checks of a gadget can be resolved, and its mechanisms refer to these.
    pub open spec fn error_model_buildable(&self, gid: u64) -> bool {
        let outputs = self.gadgets@[gid].outputs@;
        let sets = resolved_upto(self.gadgets@, outputs, outputs.len() as int);
        let errors = self.jit_gadget_types@[self.gadgets@[gid].gtype].errors@;
        &&& forall|q: int| 0 <= q < outputs.len() ==> port_resolution(self.gadgets@, #[trigger] outputs[q]) is Resolved
        &&& self.jit_gadget_types@.contains_key(self.gadgets@[gid].gtype)
        &&& forall|f: int| 0 <= f < errors.len() ==> error_resolves(#[trigger] errors[f], sets.len() as int)
    }

    /// One attempt at the error model of a compiled gadget. Once every open check at its
    /// outputs is resolved, what they end up in is published for the gadgets that wait
    /// for it, and the error model is ready.
    pub fn build_error_model(&mut self, gid: u64, modifier: Option<ProbabilityModifier>) -> (step: ErrorModelStep)
        requires
            old(self).wf(),
            old(self).gadgets@.contains_key(gid),
        ensures
            final(self).wf(),
            ({
                let gadgets = old(self).gadgets@;
                let outputs = gadgets[gid].outputs@;
                let sets = resolved_upto(gadgets, outputs, outputs.len() as int);
                match step {
                    ErrorModelStep::WaitsForOutput(p) => {
                        &&& *final(self) == *old(self)
                        &&& first_open(gadgets, outputs, p as int)
                        &&& port_resolution(gadgets, outputs[p as int]) == PortSpec::WaitsForOutput
                    },
                    ErrorModelStep::WaitsForPeer(peer) => {
                        &&& *final(self) == *old(self)
                        &&& exists|p: int| #[trigger]
                            first_open(gadgets, outputs, p) && port_resolution(gadgets, outputs[p]) == PortSpec::WaitsForPeer(peer)
                    },
                    ErrorModelStep::Dangling => {
                        &&& *final(self) == *old(self)
                        &&& !old(self).error_model_buildable(gid)
                        &&& forall|p: int| #[trigger] first_open(gadgets, outputs, p) ==> port_resolution(gadgets, outputs[p]) == PortSpec::Dangling
                    },
                    ErrorModelStep::Ready { error_model_type, error_model } => {
                        &&& old(self).error_model_buildable(gid)
                        &&& old(self).published(gid, sets, *final(self))
                        &&& error_model_type.etype == gid
                        &&& error_model_type.ctype == WILDCARD
                        &&& are_model_errors(
                            error_model_type.errors@,
                            error_model_type.remote_check_models@,
                            old(self).jit_gadget_types@[gadgets[gid].gtype].errors@,
                            sets,
                            gid,
                        )
                        &&& error_model.eid == gid
                        &&& error_model.etype == gid
                        &&& error_model.cid == gid
                        &&& match modifier {
                            None => error_model.modifier is None,
                            Some(pm) => error_model.modifier is Some && error_model.modifier->0.probability_modifier == Some(pm)
                                && error_model.modifier->0.reroute_remote_check_models@.len() == 0,
                        }
                    },
                }
            }),
    {
        let ghost before = self.gadgets@;
        let gadget = self.gadgets.get(gid).unwrap();
        let gtype: u64 = gadget.gtype;
        let sets = match resolve_outputs(&self.gadgets, &gadget.outputs) {
            Resolution::WaitsForOutput(p) => {
                return ErrorModelStep::WaitsForOutput(p);
            },
            Resolution::WaitsForPeer(peer) => {
                return ErrorModelStep::WaitsForPeer(peer);
            },
            Resolution::Dangling => {
                proof {
                    let outputs = before[gid].outputs@;
                    let p = choose|p: int| #[trigger] first_open(before, outputs, p) && port_resolution(before, outputs[p]) == PortSpec::Dangling;
                    assert forall|q: int| #[trigger] first_open(before, outputs, q) implies port_resolution(before, outputs[q]) == PortSpec::Dangling by {
                        if q < p {
                            assert(port_resolution(before, outputs[q]) is Resolved);
                        }
                        if p < q {
                            assert(port_resolution(before, outputs[p]) is Resolved);
                        }
                    }
                }
                return ErrorModelStep::Dangling;
            },
            Resolution::Resolved(sets) => sets,
        };
        let Some(gadget_type) = self.jit_gadget_types.get(gtype) else {
            return ErrorModelStep::Dangling;
        };
        assert(pair_sets_view(sets@).len() == sets@.len());
        let Some((errors, remote_check_models)) = build_model_errors(&gadget_type.errors, &sets, gid) else {
            return ErrorModelStep::Dangling;
        };
        let entry = self.gadgets.get_mut(gid);
        entry.output_virtual_checks = Some(sets);
        proof {
            assert(self.gadgets@.dom() =~= before.dom());
            assert forall|g: u64| #[trigger] self.gadgets@.contains_key(g) implies self.gadgets@[g].output_checks@.len()
                == self.gadgets@[g].outputs@.len() && crate::jit_compiler::inputs_known(
                crate::jit_checks::ports_view(self.gadgets@[g].output_checks@),
                self.gadgets@,
            ) by {
                assert(before.contains_key(g));
                assert(crate::jit_compiler::inputs_known(crate::jit_checks::ports_view(before[g].output_checks@), before));
            }
        }
        let changes = match modifier {
            None => None,
            Some(pm) => Some(ErrorModelModifier { probability_modifier: Some(pm), reroute_remote_check_models: Vec::new() }),
        };
        ErrorModelStep::Ready {
            error_model_type: ErrorModelType { etype: gid, ctype: WILDCARD, errors, remote_check_models },
            error_model: ErrorModel { eid: gid, etype: gid, cid: gid, modifier: changes },
        }
    }
}

/// Toggled pairs are those that are listed an odd number of times.
pub open spec fn listed_oddly(finished: Seq<u64>, check: u64, n: int) -> bool
    decreases n,
{
    if n <= 0 {
        false
    } else {
        listed_oddly(finished, check, n - 1) != (finished[n - 1] == check)
    }
}

/// A finished check that a mechanism lists twice is not flipped.
pub proof fn law_finished_checks_count_by_parity(finished: Seq<u64>, gid: u64, n: int, check: u64)
    requires
        0 <= n <= finished.len(),
    ensures
        toggled_checks(finished, gid, n).contains((gid, check)) == listed_oddly(finished, check, n),
    decreases n,
{
    if n > 0 {
        law_finished_checks_count_by_parity(finished, gid, n - 1, check);
    }
}

/// An open check at an output ends up where the connected gadget takes it: in its finished
/// checks that use it, and, with parity, in what its own open checks end up in.
pub proof fn law_output_resolves_through_its_peer(
    gadgets: Map<u64, JitGadgetState>,
    c: Connector,
    s: int,
    pair: (u64, u64),
)
    requires
        port_resolution(gadgets, Some(c)) is Resolved,
        0 <= s < gadgets[c.gid].input_virtual_check_map@[c.port as int]@.len(),
    ensures
        ({
            let found = port_resolution(gadgets, Some(c))->Resolved_0;
            let refs = gadgets[c.gid].input_virtual_check_map@[c.port as int]@[s];
            &&& found.len() == gadgets[c.gid].input_virtual_check_map@[c.port as int]@.len()
            &&& refs.unfinished@.len() > 0 ==> gadgets[c.gid].output_virtual_checks is Some
            &&& found[s].contains(pair) == ((pair.0 == c.gid && refs.finished@.contains(pair.1)) != (refs.unfinished@.filter(
                |u: u64| gadgets[c.gid].output_virtual_checks->0@[u as int]@.contains(pair),
            ).len() % 2 == 1))
        }),
{
    reveal(Seq::filter);
    let rows = all_refs_view(gadgets[c.gid].input_virtual_check_map@)[c.port as int];
    let refs = gadgets[c.gid].input_virtual_check_map@[c.port as int]@[s];
    assert(rows[s] == refs@);
    let sets = if goes_on(rows) {
        peer_sets(gadgets, c.gid)->0
    } else {
        Seq::<Set<(u64, u64)>>::empty()
    };
    law_resolved_check_counts_by_parity(rows[s], c.gid, sets, pair);
    if goes_on(rows) {
        let shown = |u: u64| sets[u as int].contains(pair);
        let stated = |u: u64| gadgets[c.gid].output_virtual_checks->0@[u as int]@.contains(pair);
        let list = rows[s].unfinished;
        assert forall|i: int| 0 <= i < list.len() implies shown(#[trigger] list[i]) == stated(list[i]) by {
            assert(list[i] < sets.len());
        }
        lemma_filters_agree(list, shown, stated);
    } else {
        assert(refs.unfinished@ =~= Seq::<u64>::empty());
    }
}

/// What the outputs of a gadget resolve to is what each of them does, port by port.
pub proof fn law_outputs_resolve_port_by_port(gadgets: Map<u64, JitGadgetState>, outputs: Seq<Option<Connector>>, n: int)
    requires
        0 <= n <= outputs.len(),
    ensures
        resolved_upto(gadgets, outputs, n) == outputs.take(n).map_values(
            |o: Option<Connector>| port_resolution(gadgets, o)->Resolved_0,
        ).flatten(),
    decreases n,
{
    let f = |o: Option<Connector>| port_resolution(gadgets, o)->Resolved_0;
    if n > 0 {
        law_outputs_resolve_port_by_port(gadgets, outputs, n - 1);
        outputs.take(n - 1).map_values(f).lemma_flatten_push(f(outputs[n - 1]));
        assert(outputs.take(n).map_values(f) =~= outputs.take(n - 1).map_values(f).push(f(outputs[n - 1])));
    } else {
        assert(outputs.take(n).map_values(f) =~= Seq::<Seq<Set<(u64, u64)>>>::empty());
    }
}

/// An output waits until it is connected, and then for its peer only while an open check
/// goes on through a peer that has not published where its own open checks end up.
pub proof fn law_output_waits_for_connection_then_peer(gadgets: Map<u64, JitGadgetState>, c: Connector)
    ensures
        port_resolution(gadgets, None) is WaitsForOutput,
        !(port_resolution(gadgets, Some(c)) is WaitsForOutput),
        port_resolution(gadgets, Some(c)) is WaitsForPeer ==> port_resolution(gadgets, Some(c))->WaitsForPeer_0 == c.gid
            && gadgets[c.gid].output_virtual_checks is None,
        gadgets.contains_key(c.gid) && c.port < gadgets[c.gid].input_virtual_check_map@.len() && (forall|s: int|
            0 <= s < gadgets[c.gid].input_virtual_check_map@[c.port as int]@.len() ==> (
            #[trigger] gadgets[c.gid].input_virtual_check_map@[c.port as int]@[s]).unfinished@.len() == 0) ==> port_resolution(
            gadgets,
            Some(c),
        ) is Resolved,
{
    if gadgets.contains_key(c.gid) && c.port < gadgets[c.gid].input_virtual_check_map@.len() {
        let rows = all_refs_view(gadgets[c.gid].input_virtual_check_map@)[c.port as int];
        if goes_on(rows) {
            let s = choose|s: int| 0 <= s < rows.len() && (#[trigger] rows[s]).unfinished.len() > 0;
            assert(gadgets[c.gid].input_virtual_check_map@[c.port as int]@[s].unfinished@.len() > 0);
        }
    }
}

/// A mechanism of a built error model that reaches beyond its gadget refers to a check
/// exactly if an odd number of its contributions hold the check.
pub proof fn law_model_error_flips_its_contributions(
    error: Error,
    jit: JitError,
    remotes: Seq<RemoteCheckModel>,
    sets: Seq<Set<(u64, u64)>>,
    gid: u64,
    pair: (u64, u64),
)
    requires
        is_model_error(error, jit, remotes, sets, gid),
        jit.unfinished_checks@.len() > 0,
    ensures
        (exists|k: int|
            0 <= k < error.checks@.len() && (match (#[trigger] error.checks@[k]).remote_check_model {
                None => gid == pair.0 && error.checks@[k].check_index == pair.1,
                Some(ri) => remotes[ri as int].absolute_cid == Some(pair.0) && error.checks@[k].check_index
                    + remotes[ri as int].check_bias == pair.1,
            })) <==> (jit.finished_checks@.filter(|c: u64| (gid, c) == pair).len() + jit.unfinished_checks@.filter(
            |u: u64| sets[u as int].contains(pair),
        ).len()) % 2 == 1,
        error.residual@ == jit.residual@,
        error.readout_flips@ == jit.readout_flips@,
        error.probability == jit.probability,
{
    let set = flipped_checks(jit.finished_checks@, jit.unfinished_checks@, sets, gid);
    law_flipped_checks_count_by_parity(jit.finished_checks@, jit.unfinished_checks@, sets, gid, pair);
    assert(refers_to(error.checks@, remotes, gid, set));
    if set.contains(pair) {
        let k = choose|k: int|
            0 <= k < error.checks@.len() && #[trigger] referred(error.checks@[k], remotes, gid) == (pair.0, pair.1 as int);
        assert(reference_resolves(error.checks@[k], remotes));
    }
    assert forall|k: int|
        0 <= k < error.checks@.len() && (match (#[trigger] error.checks@[k]).remote_check_model {
            None => gid == pair.0 && error.checks@[k].check_index == pair.1,
            Some(ri) => remotes[ri as int].absolute_cid == Some(pair.0) && error.checks@[k].check_index
                + remotes[ri as int].check_bias == pair.1,
        }) implies set.contains(pair) by {
        assert(reference_resolves(error.checks@[k], remotes));
        assert(crate::jit_checks::is_member(referred(error.checks@[k], remotes, gid), set));
    }
}

/// A mechanism that stays inside its gadget keeps its list of checks.
pub proof fn law_inner_error_keeps_its_checks(
    error: Error,
    jit: JitError,
    remotes: Seq<RemoteCheckModel>,
    sets: Seq<Set<(u64, u64)>>,
    gid: u64,
)
    requires
        is_model_error(error, jit, remotes, sets, gid),
        jit.unfinished_checks@.len() == 0,
    ensures
        error.checks@.len() == jit.finished_checks@.len(),
        forall|k: int|
            0 <= k < error.checks@.len() ==> (#[trigger] error.checks@[k]).remote_check_model is None
                && error.checks@[k].check_index == jit.finished_checks@[k],
        error.residual@ == jit.residual@,
        error.readout_flips@ == jit.readout_flips@,
        error.probability == jit.probability,
{
}

/// A built error model has a mechanism for each of the gadget type, in order, with its
/// residual, readout flips and probability.
pub proof fn law_built_error_model_has_every_mechanism(
    errors: Seq<Error>,
    remotes: Seq<RemoteCheckModel>,
    jit_errors: Seq<JitError>,
    sets: Seq<Set<(u64, u64)>>,
    gid: u64,
    f: int,
)
    requires
        are_model_errors(errors, remotes, jit_errors, sets, gid),
        0 <= f < jit_errors.len(),
    ensures
        errors.len() == jit_errors.len(),
        errors[f].residual@ == jit_errors[f].residual@,
        errors[f].readout_flips@ == jit_errors[f].readout_flips@,
        errors[f].probability == jit_errors[f].probability,
        is_model_error(errors[f], jit_errors[f], remotes, sets, gid),
{
    assert(is_model_error(errors[f], jit_errors[f], remotes, sets, gid));
}

/// An error model can be built exactly if all outputs of its gadget are resolved, its type
/// is known and its mechanisms name open checks that there are.
pub proof fn law_error_model_waits_for_all_outputs(compiler: JitCompiler, gid: u64)
    ensures
        compiler.error_model_buildable(gid) <==> {
            let outputs = compiler.gadgets@[gid].outputs@;
            let count = resolved_upto(compiler.gadgets@, outputs, outputs.len() as int).len();
            let errors = compiler.jit_gadget_types@[compiler.gadgets@[gid].gtype].errors@;
            &&& forall|q: int|
                0 <= q < outputs.len() ==> (#[trigger] outputs[q]) is Some && port_resolution(
                    compiler.gadgets@,
                    outputs[q],
                ) is Resolved
            &&& compiler.jit_gadget_types@.contains_key(compiler.gadgets@[gid].gtype)
            &&& forall|f: int, k: int|
                0 <= f < errors.len() && 0 <= k < errors[f].unfinished_checks@.len()
                    ==> #[trigger] errors[f].unfinished_checks@[k] < count
        },
{
    let outputs = compiler.gadgets@[gid].outputs@;
    let count = resolved_upto(compiler.gadgets@, outputs, outputs.len() as int).len();
    let errors = compiler.jit_gadget_types@[compiler.gadgets@[gid].gtype].errors@;
    if compiler.error_model_buildable(gid) {
        assert forall|f: int, k: int|
            0 <= f < errors.len() && 0 <= k < errors[f].unfinished_checks@.len() implies #[trigger] errors[f].unfinished_checks@[k]
            < count by {
            assert(error_resolves(errors[f], count as int));
        }
    }
}

/// Publishing says where the open checks at the outputs of one gadget end up, and changes
/// nothing else.
pub proof fn law_publishing_tells_the_resolved_checks(
    before: JitCompiler,
    gid: u64,
    sets: Seq<Set<(u64, u64)>>,
    after: JitCompiler,
    g: u64,
    i: int,
)
    requires
        before.published(gid, sets, after),
        before.gadgets@.contains_key(g),
    ensures
        after.gadgets@.contains_key(gid),
        after.gadgets@[gid].output_virtual_checks is Some,
        after.gadgets@[gid].output_virtual_checks->0@.len() == sets.len(),
        0 <= i < sets.len() ==> after.gadgets@[gid].output_virtual_checks->0@[i]@ == sets[i],
        g != gid ==> after.gadgets@.contains_key(g) && after.gadgets@[g] == before.gadgets@[g],
        after.gadgets@[gid].outputs == before.gadgets@[gid].outputs,
{
    let list = after.gadgets@[gid].output_virtual_checks->0@;
    assert(pair_sets_view(list) == sets);
    if 0 <= i < sets.len() {
        assert(pair_sets_view(list)[i] == list[i]@);
    }
}

} // verus!
