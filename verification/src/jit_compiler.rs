//! Just-in-time compilation: an instantiated gadget becomes a gadget with a check
//! model at once, and an error model as soon as its outputs are connected.
use crate::bin;
use crate::bin::{Check, CheckModel, CheckModelType, Connector, RemoteGadget, RemoteMeasurement};
use crate::collections::PairSet;
use crate::jit::{JitCheck, JitGadgetType, JitLibrary, JitMeasurement, JitPortType};
use crate::jit_checks::{
    are_remote_gadgets, check_valid, expand_check_measurements, expanded_check, is_member, lemma_unbiased_measures, measured,
    measurement_of, measurement_resolves, measurement_valid, measures, port_view, ports_view, remote_gadget_of, ExpandedCheck, ExpandedSpec,
};
use crate::jit_progress::{lemma_ids_bounded, next_revision, CompileWaits, WaitsSpec};
use crate::library::{load_types, loads};
use crate::program::{lemma_linked_len, linked, ports_exist};
use crate::registry::Registry;
use crate::sequencer::{
    bias_used, list_stands, ref_before, refs_sorted, sequence_sets, sets_view, unbiased, used_in, RemoteRef,
    Sequencer,
};
use vstd::prelude::*;

verus! {

/// The checks of a gadget that use an open check at one of its inputs.
#[derive(Debug)]
pub struct CheckRefs {
    pub finished: Vec<u64>,
    pub unfinished: Vec<u64>,
}

/// The value of [`CheckRefs`].
#[verifier::ext_equal]
pub struct CheckRefsSpec {
    pub finished: Seq<u64>,
    pub unfinished: Seq<u64>,
}

impl CheckRefs {
    /// The references as a mathematical value.
    pub open spec fn view(&self) -> CheckRefsSpec {
        CheckRefsSpec { finished: self.finished@, unfinished: self.unfinished@ }
    }
}

/// The values of the references of one input.
pub open spec fn input_refs_view(list: Seq<CheckRefs>) -> Seq<CheckRefsSpec> {
    list.map_values(|r: CheckRefs| r@)
}

/// The values of the references of all inputs.
pub open spec fn all_refs_view(lists: Seq<Vec<CheckRefs>>) -> Seq<Seq<CheckRefsSpec>> {
    lists.map_values(|l: Vec<CheckRefs>| input_refs_view(l@))
}

/// A gadget that was compiled.
pub struct JitGadgetState {
    pub gtype: u64,
    /// the peer input connected to each output
    pub outputs: Vec<Option<Connector>>,
    /// the open checks of each output, until a peer takes them
    pub output_checks: Vec<Vec<ExpandedCheck>>,
    /// the checks that use each open check of each input
    pub input_virtual_check_map: Vec<Vec<CheckRefs>>,
    /// the checks that each open check of the outputs ends up in, once they are known
    pub output_virtual_checks: Option<Vec<PairSet>>,
}

// ---------------------------------------------------------------------------
// The check model
// ---------------------------------------------------------------------------

/// The order of measurements: local ones first, then by remote gadget, then by index, each
/// once.
pub open spec fn measurements_sorted(list: Seq<RemoteMeasurement>) -> bool {
    forall|i: int, j: int|
        0 <= i < j < list.len() ==> ref_before(
            RemoteRef { remote: list[i].remote_gadget, index: list[i].measurement_index },
            RemoteRef { remote: list[j].remote_gadget, index: list[j].measurement_index },
        )
}

/// The type of a compiled gadget.
pub open spec fn gtype_of(gadgets: Map<u64, JitGadgetState>) -> spec_fn(u64) -> u64 {
    |gid: u64| gadgets[gid].gtype
}

/// Some measurement of some check has the bias of remote gadget `i` as its index.
pub open spec fn remote_used(checks: Seq<Check>, i: int) -> bool {
    exists|f: int|
        0 <= f < checks.len() && (#[trigger] checks[f]).measurements@.contains(
            RemoteMeasurement { remote_gadget: Some(i as u64), measurement_index: 0 },
        )
}

/// The checks of a check model: each stands for the expanded check, and each remote
/// gadget has the least measurement used as its bias.
pub open spec fn are_model_checks(
    checks: Seq<Check>,
    remotes: Seq<RemoteGadget>,
    finished: Seq<JitCheck>,
    inputs: Seq<Seq<ExpandedSpec>>,
    gid: u64,
    gadgets: Map<u64, JitGadgetState>,
) -> bool {
    &&& checks.len() == finished.len()
    &&& forall|f: int|
        0 <= f < finished.len() ==> {
            let expanded = expanded_check(finished[f], inputs, gid);
            &&& (#[trigger] checks[f]).naturally_flipped == expanded.flipped
            &&& measures(checks[f].measurements@, remotes, gid, expanded.measurements)
            &&& measurements_sorted(checks[f].measurements@)
        }
    &&& exists|ids: Seq<u64>, minima: Seq<u64>|
        ids.no_duplicates() && !ids.contains(gid) && minima.len() == ids.len() && #[trigger] are_remote_gadgets(
            remotes,
            ids,
            minima,
            gtype_of(gadgets),
        )
    &&& forall|i: int| 0 <= i < remotes.len() ==> #[trigger] remote_used(checks, i)
}

/// Counting from biases keeps the order of references.
proof fn lemma_unbiased_sorted(refs: Seq<RemoteRef>, remotes: &Sequencer)
    requires
        remotes.wf(),
        refs_sorted(refs),
        forall|k: int| 0 <= k < refs.len() ==> crate::sequencer::ref_valid(#[trigger] refs[k], remotes.ids(), remotes.minima()),
    ensures
        refs_sorted(refs.map_values(|r: RemoteRef| unbiased(r, remotes.minima()))),
{
    remotes.lemma_wf();
    let list = refs.map_values(|r: RemoteRef| unbiased(r, remotes.minima()));
    assert forall|i: int, j: int| 0 <= i < j < list.len() implies ref_before(list[i], list[j]) by {
        assert(ref_before(refs[i], refs[j]));
        assert(crate::sequencer::ref_valid(refs[i], remotes.ids(), remotes.minima()));
        assert(crate::sequencer::ref_valid(refs[j], remotes.ids(), remotes.minima()));
    }
}

/// Builds the checks of the check model of gadget `gid`.
fn build_model_checks(
    finished: &Vec<JitCheck>,
    inputs: &Vec<Vec<ExpandedCheck>>,
    gid: u64,
    gadgets: &Registry<JitGadgetState>,
) -> (model: (Vec<Check>, Vec<RemoteGadget>))
    requires
        gadgets.wf(),
        forall|i: int| 0 <= i < finished@.len() ==> check_valid((#[trigger] finished@[i]).measurements@, ports_view(inputs@)),
        inputs_known(ports_view(inputs@), gadgets@),
    ensures
        are_model_checks(model.0@, model.1@, finished@, ports_view(inputs@), gid, gadgets@),
{
    let ghost views = ports_view(inputs@);
    let mut sets: Vec<Option<PairSet>> = Vec::new();
    let mut flips: Vec<bool> = Vec::new();
    let mut n: usize = 0;
    while n < finished.len()
        invariant
            n <= finished@.len(),
            views == ports_view(inputs@),
            forall|i: int| 0 <= i < finished@.len() ==> check_valid((#[trigger] finished@[i]).measurements@, views),
            sets@.len() == n,
            flips@.len() == n,
            forall|f: int|
                0 <= f < n ==> #[trigger] sets_view(sets@)[f] == Some(expanded_check(finished@[f], views, gid).measurements),
            forall|f: int| 0 <= f < n ==> #[trigger] flips@[f] == expanded_check(finished@[f], views, gid).flipped,
        decreases finished@.len() - n,
    {
        assert(check_valid(finished@[n as int].measurements@, views));
        let expanded = expand_check_measurements(&finished[n], inputs, gid);
        let ghost before = sets@;
        flips.push(expanded.flipped);
        sets.push(Some(expanded.measurements));
        proof {
            assert forall|f: int| 0 <= f < n + 1 implies #[trigger] sets_view(sets@)[f] == Some(
                expanded_check(finished@[f], views, gid).measurements,
            ) by {
                if f < n {
                    assert(sets_view(before)[f] == sets_view(sets@)[f]);
                }
            }
        }
        n += 1;
    }
    let all = sequence_sets(&sets, gid);
    let ghost ids = all.remotes.ids();
    let ghost minima = all.remotes.minima();
    let ghost specs = sets_view(sets@);
    proof {
        all.remotes.lemma_wf();
    }
    // the remote gadgets
    let mut remotes: Vec<RemoteGadget> = Vec::new();
    let count: usize = all.remotes.len();
    let mut i: usize = 0;
    while i < count
        invariant
            i <= count,
            count == ids.len(),
            all.remotes.wf(),
            ids == all.remotes.ids(),
            minima == all.remotes.minima(),
            minima.len() == ids.len(),
            gadgets.wf(),
            specs == sets_view(sets@),
            sets@.len() == finished@.len(),
            forall|f: int|
                0 <= f < finished@.len() ==> #[trigger] specs[f] == Some(expanded_check(finished@[f], views, gid).measurements),
            forall|k: int| 0 <= k < ids.len() ==> used_in((#[trigger] ids[k]), specs) && ids[k] != gid,
            inputs_known(views, gadgets@),
            forall|i: int| 0 <= i < finished@.len() ==> check_valid((#[trigger] finished@[i]).measurements@, views),
            remotes@.len() == i,
            forall|k: int|
                0 <= k < i ==> #[trigger] remotes@[k] == remote_gadget_of(ids[k], gtype_of(gadgets@)(ids[k]), minima[k]),
        decreases count - i,
    {
        let id: u64 = all.remotes.id(i);
        let bias: u64 = all.remotes.bias(i);
        proof {
            assert(used_in(ids[i as int], specs));
            let (f, p) = choose|f: int, p: (u64, u64)|
                0 <= f < specs.len() && specs[f] is Some && #[trigger] specs[f]->0.contains(p) && p.0 == id;
            assert(specs[f] == Some(expanded_check(finished@[f], views, gid).measurements));
            assert(check_valid(finished@[f].measurements@, views));
            lemma_expanded_known(
                finished@[f].naturally_flipped,
                finished@[f].measurements@,
                views,
                gid,
                gadgets@,
                finished@[f].measurements@.len() as int,
                p,
            );
        }
        let gtype: u64 = gadgets.get(id).unwrap().gtype;
        remotes.push(
            RemoteGadget {
                port: None,
                previous_remote_gadget: None,
                absolute_gid: Some(id),
                expecting_gtype: gtype,
                measurement_bias: bias,
            },
        );
        i += 1;
    }
    assert(are_remote_gadgets(remotes@, ids, minima, gtype_of(gadgets@)));
    // the checks
    let mut checks: Vec<Check> = Vec::new();
    let mut f: usize = 0;
    while f < finished.len()
        invariant
            f <= finished@.len(),
            all.remotes.wf(),
            ids == all.remotes.ids(),
            minima == all.remotes.minima(),
            minima.len() == ids.len(),
            all.lists@.len() == finished@.len(),
            flips@.len() == finished@.len(),
            specs == sets_view(sets@),
            forall|f: int|
                0 <= f < finished@.len() ==> #[trigger] specs[f] == Some(expanded_check(finished@[f], views, gid).measurements),
            forall|f: int| 0 <= f < finished@.len() ==> #[trigger] flips@[f] == expanded_check(finished@[f], views, gid).flipped,
            forall|g: int| 0 <= g < finished@.len() ==> #[trigger] list_stands(all.lists@, g, &all.remotes, gid, specs),
            are_remote_gadgets(remotes@, ids, minima, gtype_of(gadgets@)),
            checks@.len() == f,
            forall|g: int|
                0 <= g < f ==> {
                    let expanded = expanded_check(finished@[g], views, gid);
                    &&& (#[trigger] checks@[g]).naturally_flipped == expanded.flipped
                    &&& measures(checks@[g].measurements@, remotes@, gid, expanded.measurements)
                    &&& measurements_sorted(checks@[g].measurements@)
                },
            forall|g: int|
                0 <= g < f ==> (#[trigger] checks@[g]).measurements@ == all.lists@[g]@.map_values(
                    |r: RemoteRef| measurement_of(unbiased(r, minima)),
                ),
        decreases finished@.len() - f,
    {
        assert(list_stands(all.lists@, f as int, &all.remotes, gid, specs));
        assert(specs[f as int] == Some(expanded_check(finished@[f as int], views, gid).measurements));
        let ghost refs = all.lists@[f as int]@;
        let mut own = bin::copy_vec(&all.lists[f]);
        all.remotes.unbias(&mut own);
        let mut measurements: Vec<RemoteMeasurement> = Vec::new();
        let mut k: usize = 0;
        while k < own.len()
            invariant
                k <= own@.len(),
                own@ == refs.map_values(|r: RemoteRef| unbiased(r, minima)),
                measurements@ =~= refs.map_values(|r: RemoteRef| measurement_of(unbiased(r, minima))).take(k as int),
            decreases own@.len() - k,
        {
            let r = own[k];
            assert(r == unbiased(refs[k as int], minima));
            measurements.push(RemoteMeasurement { remote_gadget: r.remote, measurement_index: r.index });
            k += 1;
        }
        proof {
            let list = refs.map_values(|r: RemoteRef| measurement_of(unbiased(r, minima)));
            assert(measurements@ =~= list);
            lemma_unbiased_measures(
                refs,
                ids,
                minima,
                remotes@,
                gtype_of(gadgets@),
                gid,
                expanded_check(finished@[f as int], views, gid).measurements,
            );
            lemma_unbiased_sorted(refs, &all.remotes);
            assert(measurements_sorted(measurements@)) by {
                let sorted = refs.map_values(|r: RemoteRef| unbiased(r, minima));
                assert forall|i: int, j: int| 0 <= i < j < list.len() implies ref_before(
                    RemoteRef { remote: list[i].remote_gadget, index: list[i].measurement_index },
                    RemoteRef { remote: list[j].remote_gadget, index: list[j].measurement_index },
                ) by {
                    assert(ref_before(sorted[i], sorted[j]));
                }
            }
        }
        checks.push(Check { measurements, naturally_flipped: flips[f] });
        f += 1;
    }
    proof {
        assert forall|i: int| 0 <= i < remotes@.len() implies #[trigger] remote_used(checks@, i) by {
            assert(bias_used(all.lists@, &all.remotes, i));
            let x = RemoteRef { remote: Some(i as u64), index: minima[i] };
            let f = choose|f: int| 0 <= f < all.lists@.len() && (#[trigger] all.lists@[f])@.contains(x);
            let k = all.lists@[f]@.index_of(x);
            assert(checks@[f].measurements@[k] == measurement_of(unbiased(x, minima)));
            assert(checks@[f].measurements@.contains(
                RemoteMeasurement { remote_gadget: Some(i as u64), measurement_index: 0 },
            ));
        }
        all.remotes.lemma_wf();
        assert(ids.no_duplicates() && !ids.contains(gid) && minima.len() == ids.len() && are_remote_gadgets(
            remotes@,
            ids,
            minima,
            gtype_of(gadgets@),
        ));
    }
    (checks, remotes)
}

/// The measurements of the open checks at the inputs belong to compiled gadgets.
pub open spec fn inputs_known(inputs: Seq<Seq<ExpandedSpec>>, gadgets: Map<u64, JitGadgetState>) -> bool {
    forall|p: int, m: int, pair: (u64, u64)|
        0 <= p < inputs.len() && 0 <= m < inputs[p].len() && #[trigger] inputs[p][m].measurements.contains(pair)
            ==> gadgets.contains_key(pair.0)
}

/// An expanded check consists of measurements of the gadget itself and of compiled
/// gadgets.
proof fn lemma_expanded_known(
    flipped: bool,
    measurements: Seq<JitMeasurement>,
    inputs: Seq<Seq<ExpandedSpec>>,
    gid: u64,
    gadgets: Map<u64, JitGadgetState>,
    n: int,
    pair: (u64, u64),
)
    requires
        0 <= n <= measurements.len(),
        check_valid(measurements, inputs),
        inputs_known(inputs, gadgets),
        crate::jit_checks::expand_upto(flipped, measurements, inputs, gid, n).measurements.contains(pair),
    ensures
        pair.0 == gid || gadgets.contains_key(pair.0),
    decreases n,
{
    if n > 0 {
        let before = crate::jit_checks::expand_upto(flipped, measurements, inputs, gid, n - 1).measurements;
        let m = measurements[n - 1];
        assert(measurement_valid(m, inputs));
        if before.contains(pair) {
            lemma_expanded_known(flipped, measurements, inputs, gid, gadgets, n - 1, pair);
        } else {
            match m.input_port {
                None => {},
                Some(p) => {
                    assert(inputs[p as int][m.measurement_index as int].measurements.contains(pair));
                },
            }
        }
    }
}

// ---------------------------------------------------------------------------
// What the peers are told
// ---------------------------------------------------------------------------

/// Check `idx` once for each of its first `k` measurements that is open check `m` of
/// input `p`.
pub open spec fn refs_in(measurements: Seq<JitMeasurement>, p: int, m: int, idx: int, k: int) -> Seq<u64>
    decreases k,
{
    if k <= 0 {
        Seq::empty()
    } else {
        let before = refs_in(measurements, p, m, idx, k - 1);
        if measurements[k - 1].input_port == Some(p as u64) && measurements[k - 1].measurement_index == m {
            before.push(idx as u64)
        } else {
            before
        }
    }
}

/// Those of the first `n` checks that use open check `m` of input `p`, as often as they
/// do.
pub open spec fn refs_of(checks: Seq<JitCheck>, p: int, m: int, n: int) -> Seq<u64>
    decreases n,
{
    if n <= 0 {
        Seq::empty()
    } else {
        refs_of(checks, p, m, n - 1) + refs_in(
            checks[n - 1].measurements@,
            p,
            m,
            n - 1,
            checks[n - 1].measurements@.len() as int,
        )
    }
}

/// The checks of a gadget type that use each open check of each input.
pub open spec fn input_map(finished: Seq<JitCheck>, unfinished: Seq<JitCheck>, inputs: Seq<Seq<ExpandedSpec>>) -> Seq<
    Seq<CheckRefsSpec>,
> {
    Seq::new(
        inputs.len(),
        |p: int|
            Seq::new(
                inputs[p].len(),
                |m: int|
                    CheckRefsSpec {
                        finished: refs_of(finished, p, m, finished.len() as int),
                        unfinished: refs_of(unfinished, p, m, unfinished.len() as int),
                    },
            ),
    )
}

/// The lists of references, by input and open check.
spec fn lists_are(lists: Seq<Vec<Vec<u64>>>, inputs: Seq<Seq<ExpandedSpec>>, list: spec_fn(int, int) -> Seq<u64>) -> bool {
    &&& lists.len() == inputs.len()
    &&& forall|p: int| 0 <= p < inputs.len() ==> (#[trigger] lists[p])@.len() == inputs[p].len()
    &&& forall|p: int, m: int|
        0 <= p < inputs.len() && 0 <= m < inputs[p].len() ==> (#[trigger] lists[p]@[m])@ == list(p, m)
}

/// Appends a check to one list.
fn add_ref(lists: &mut Vec<Vec<Vec<u64>>>, p: usize, m: usize, idx: u64)
    requires
        p < old(lists)@.len(),
        m < old(lists)@[p as int]@.len(),
    ensures
        final(lists)@.len() == old(lists)@.len(),
        forall|q: int| 0 <= q < old(lists)@.len() ==> (#[trigger] final(lists)@[q])@.len() == old(lists)@[q]@.len(),
        forall|q: int, k: int|
            0 <= q < old(lists)@.len() && 0 <= k < old(lists)@[q]@.len() ==> (#[trigger] final(lists)@[q]@[k])@ == (if q == p && k == m {
                old(lists)@[q]@[k]@.push(idx)
            } else {
                old(lists)@[q]@[k]@
            }),
{
    lists[p][m].push(idx);
}

/// Lists the checks that use each open check of each input.
fn list_refs(checks: &Vec<JitCheck>, inputs: &Vec<Vec<ExpandedCheck>>) -> (lists: Vec<Vec<Vec<u64>>>)
    requires
        forall|i: int| 0 <= i < checks@.len() ==> check_valid((#[trigger] checks@[i]).measurements@, ports_view(inputs@)),
    ensures
        lists_are(lists@, ports_view(inputs@), |p: int, m: int| refs_of(checks@, p, m, checks@.len() as int)),
{
    let ghost views = ports_view(inputs@);
    let mut lists: Vec<Vec<Vec<u64>>> = Vec::new();
    let mut p: usize = 0;
    while p < inputs.len()
        invariant
            p <= inputs@.len(),
            views == ports_view(inputs@),
            lists@.len() == p,
            forall|q: int| 0 <= q < p ==> (#[trigger] lists@[q])@.len() == views[q].len(),
            forall|q: int, m: int|
                0 <= q < p && 0 <= m < views[q].len() ==> (#[trigger] lists@[q]@[m])@ == Seq::<u64>::empty(),
        decreases inputs@.len() - p,
    {
        let mut list: Vec<Vec<u64>> = Vec::new();
        let mut m: usize = 0;
        assert(views[p as int].len() == inputs@[p as int]@.len());
        while m < inputs[p].len()
            invariant
                p < inputs@.len(),
                m <= inputs@[p as int]@.len(),
                list@.len() == m,
                forall|k: int| 0 <= k < m ==> (#[trigger] list@[k])@ == Seq::<u64>::empty(),
            decreases inputs@[p as int]@.len() - m,
        {
            list.push(Vec::new());
            m += 1;
        }
        lists.push(list);
        p += 1;
    }
    let mut n: usize = 0;
    assert(lists_are(lists@, views, |p: int, m: int| refs_of(checks@, p, m, 0)));
    while n < checks.len()
        invariant
            n <= checks@.len(),
            views == ports_view(inputs@),
            forall|i: int| 0 <= i < checks@.len() ==> check_valid((#[trigger] checks@[i]).measurements@, views),
            lists_are(lists@, views, |p: int, m: int| refs_of(checks@, p, m, n as int)),
        decreases checks@.len() - n,
    {
        let list = &checks[n].measurements;
        let mut k: usize = 0;
        proof {
            assert(check_valid(checks@[n as int].measurements@, views));
            assert forall|p: int, m: int| 0 <= p < views.len() && 0 <= m < views[p].len() implies (#[trigger] lists@[p]@[m])@ == refs_of(
                checks@,
                p,
                m,
                n as int,
            ) + refs_in(list@, p, m, n as int, 0) by {
                assert(refs_of(checks@, p, m, n as int) + Seq::<u64>::empty() =~= refs_of(checks@, p, m, n as int));
            }
        }
        while k < list.len()
            invariant
                n < checks@.len(),
                *list == checks@[n as int].measurements,
                check_valid(list@, views),
                views == ports_view(inputs@),
                k <= list@.len(),
                lists_are(
                    lists@,
                    views,
                    |p: int, m: int| refs_of(checks@, p, m, n as int) + refs_in(list@, p, m, n as int, k as int),
                ),
            decreases list@.len() - k,
        {
            let measurement = list[k];
            let ghost before = lists@;
            assert(measurement_valid(list@[k as int], views));
            if let Some(port) = measurement.input_port {
                assert(lists@[port as int]@.len() == views[port as int].len());
                assert(port < lists.len());
                assert(measurement.measurement_index < lists@[port as int].len());
                add_ref(&mut lists, port as usize, measurement.measurement_index as usize, n as u64);
            }
            proof {
                let now = |p: int, m: int| refs_of(checks@, p, m, n as int) + refs_in(list@, p, m, n as int, k as int);
                let next = |p: int, m: int| refs_of(checks@, p, m, n as int) + refs_in(list@, p, m, n as int, k as int + 1);
                assert forall|p: int| 0 <= p < views.len() implies (#[trigger] lists@[p])@.len() == views[p].len() by {
                    assert(before[p]@.len() == views[p].len());
                }
                assert forall|p: int, m: int| 0 <= p < views.len() && 0 <= m < views[p].len() implies (#[trigger] lists@[p]@[m])@ == next(
                    p,
                    m,
                ) by {
                    assert(before[p]@[m]@ == now(p, m));
                    assert(before[p]@.len() == views[p].len());
                    assert(p <= u64::MAX) by {
                        assert(inputs.len() == inputs@.len());
                    }
                    if measurement.input_port == Some(p as u64) && measurement.measurement_index == m {
                        assert(next(p, m) =~= now(p, m).push(n as u64));
                    }
                }
            }
            k += 1;
        }
        proof {
            assert forall|p: int, m: int| 0 <= p < views.len() && 0 <= m < views[p].len() implies (#[trigger] lists@[p]@[m])@ == refs_of(
                checks@,
                p,
                m,
                n as int + 1,
            ) by {
            }
        }
        n += 1;
    }
    lists
}

/// Builds the table of checks that use each open check of each input.
fn build_input_map(finished: &Vec<JitCheck>, unfinished: &Vec<JitCheck>, inputs: &Vec<Vec<ExpandedCheck>>) -> (map: Vec<
    Vec<CheckRefs>,
>)
    requires
        forall|i: int| 0 <= i < finished@.len() ==> check_valid((#[trigger] finished@[i]).measurements@, ports_view(inputs@)),
        forall|i: int| 0 <= i < unfinished@.len() ==> check_valid((#[trigger] unfinished@[i]).measurements@, ports_view(inputs@)),
    ensures
        all_refs_view(map@) == input_map(finished@, unfinished@, ports_view(inputs@)),
{
    let ghost views = ports_view(inputs@);
    let ghost target = input_map(finished@, unfinished@, views);
    let mut first = list_refs(finished, inputs);
    let mut second = list_refs(unfinished, inputs);
    let ghost all_first = first@;
    let ghost all_second = second@;
    let mut map: Vec<Vec<CheckRefs>> = Vec::new();
    let mut p: usize = 0;
    while p < inputs.len()
        invariant
            p <= inputs@.len(),
            views == ports_view(inputs@),
            target == input_map(finished@, unfinished@, views),
            first@ == all_first,
            second@ == all_second,
            lists_are(all_first, views, |p: int, m: int| refs_of(finished@, p, m, finished@.len() as int)),
            lists_are(all_second, views, |p: int, m: int| refs_of(unfinished@, p, m, unfinished@.len() as int)),
            all_refs_view(map@) =~= target.take(p as int),
        decreases inputs@.len() - p,
    {
        let mut row: Vec<CheckRefs> = Vec::new();
        let mut m: usize = 0;
        assert(views[p as int].len() == inputs@[p as int]@.len());
        assert(first@[p as int]@.len() == views[p as int].len());
        assert(second@[p as int]@.len() == views[p as int].len());
        while m < inputs[p].len()
            invariant
                p < inputs@.len(),
                m <= inputs@[p as int]@.len(),
                views == ports_view(inputs@),
                views[p as int].len() == inputs@[p as int]@.len(),
                target == input_map(finished@, unfinished@, views),
                first@ == all_first,
                second@ == all_second,
                first@[p as int]@.len() == views[p as int].len(),
                second@[p as int]@.len() == views[p as int].len(),
                first@.len() == views.len(),
                second@.len() == views.len(),
                lists_are(all_first, views, |p: int, m: int| refs_of(finished@, p, m, finished@.len() as int)),
                lists_are(all_second, views, |p: int, m: int| refs_of(unfinished@, p, m, unfinished@.len() as int)),
                input_refs_view(row@) =~= target[p as int].take(m as int),
            decreases inputs@[p as int]@.len() - m,
        {
            let entry = CheckRefs { finished: bin::copy_vec(&first[p][m]), unfinished: bin::copy_vec(&second[p][m]) };
            let ghost before = row@;
            row.push(entry);
            proof {
                assert(all_first[p as int]@[m as int]@ == refs_of(finished@, p as int, m as int, finished@.len() as int));
                assert(all_second[p as int]@[m as int]@ == refs_of(unfinished@, p as int, m as int, unfinished@.len() as int));
                assert(entry@ =~= target[p as int][m as int]);
                assert(input_refs_view(row@) =~= input_refs_view(before).push(entry@));
            }
            m += 1;
        }
        let ghost before = map@;
        map.push(row);
        proof {
            assert(input_refs_view(row@) =~= target[p as int]);
            assert(all_refs_view(map@) =~= all_refs_view(before).push(input_refs_view(row@)));
        }
        p += 1;
    }
    assert(all_refs_view(map@) =~= target);
    map
}

// ---------------------------------------------------------------------------
// Open checks of the outputs
// ---------------------------------------------------------------------------

/// How many open checks the first `n` outputs have. None if a port type is not known.
pub open spec fn open_checks(outputs: Seq<u64>, port_types: Map<u64, JitPortType>, n: int) -> Option<int>
    decreases n,
{
    if n <= 0 {
        Some(0)
    } else {
        match open_checks(outputs, port_types, n - 1) {
            Some(before) => if port_types.contains_key(outputs[n - 1]) {
                Some(before + port_types[outputs[n - 1]].stabilizers)
            } else {
                None
            },
            None => None,
        }
    }
}

/// The open checks of each output: the unfinished checks of the gadget type, expanded,
/// port by port.
pub open spec fn are_output_checks(
    lists: Seq<Seq<ExpandedSpec>>,
    outputs: Seq<u64>,
    port_types: Map<u64, JitPortType>,
    unfinished: Seq<JitCheck>,
    inputs: Seq<Seq<ExpandedSpec>>,
    gid: u64,
) -> bool {
    &&& lists.len() == outputs.len()
    &&& forall|p: int| 0 <= p < outputs.len() ==> (#[trigger] lists[p]).len() == port_types[outputs[p]].stabilizers
    &&& forall|p: int, s: int|
        0 <= p < outputs.len() && 0 <= s < lists[p].len() ==> #[trigger] lists[p][s] == expanded_check(
            unfinished[open_checks(outputs, port_types, p)->0 + s],
            inputs,
            gid,
        )
}

/// Counts the open checks of the outputs. `None` if a port type is not known or there
/// are more of them than `limit`.
fn count_open_checks(outputs: &Vec<u64>, port_types: &Registry<JitPortType>, limit: usize) -> (count: Option<usize>)
    requires
        port_types.wf(),
    ensures
        match open_checks(outputs@, port_types@, outputs@.len() as int) {
            Some(n) => if n <= limit {
                count is Some && count->0 == n
            } else {
                count is None
            },
            None => count is None,
        },
{
    let mut count: usize = 0;
    let mut p: usize = 0;
    while p < outputs.len()
        invariant
            p <= outputs@.len(),
            port_types.wf(),
            open_checks(outputs@, port_types@, p as int) == Some(count as int),
            count <= limit,
        decreases outputs@.len() - p,
    {
        proof {
            lemma_open_checks_grow(outputs@, port_types@, p as int + 1, outputs@.len() as int);
        }
        let Some(port_type) = port_types.get(outputs[p]) else {
            return None;
        };
        if port_type.stabilizers > limit - count {
            return None;
        }
        count += port_type.stabilizers;
        p += 1;
    }
    Some(count)
}

/// More outputs have no fewer open checks.
proof fn lemma_open_checks_grow(outputs: Seq<u64>, port_types: Map<u64, JitPortType>, a: int, b: int)
    requires
        0 <= a <= b,
    ensures
        open_checks(outputs, port_types, a) is None ==> open_checks(outputs, port_types, b) is None,
        open_checks(outputs, port_types, b) is Some ==> open_checks(outputs, port_types, a) is Some && open_checks(
            outputs,
            port_types,
            a,
        )->0 <= open_checks(outputs, port_types, b)->0,
    decreases b - a,
{
    if a < b {
        lemma_open_checks_grow(outputs, port_types, a, b - 1);
    }
}

/// Expands the open checks of the outputs.
fn build_output_checks(
    outputs: &Vec<u64>,
    port_types: &Registry<JitPortType>,
    unfinished: &Vec<JitCheck>,
    inputs: &Vec<Vec<ExpandedCheck>>,
    gid: u64,
) -> (lists: Vec<Vec<ExpandedCheck>>)
    requires
        port_types.wf(),
        open_checks(outputs@, port_types@, outputs@.len() as int) == Some(unfinished@.len() as int),
        forall|i: int| 0 <= i < unfinished@.len() ==> check_valid((#[trigger] unfinished@[i]).measurements@, ports_view(inputs@)),
    ensures
        are_output_checks(ports_view(lists@), outputs@, port_types@, unfinished@, ports_view(inputs@), gid),
{
    let ghost views = ports_view(inputs@);
    let total: usize = unfinished.len();
    let mut lists: Vec<Vec<ExpandedCheck>> = Vec::new();
    let mut at: usize = 0;
    let mut p: usize = 0;
    while p < outputs.len()
        invariant
            p <= outputs@.len(),
            port_types.wf(),
            views == ports_view(inputs@),
            total == unfinished@.len(),
            open_checks(outputs@, port_types@, outputs@.len() as int) == Some(unfinished@.len() as int),
            open_checks(outputs@, port_types@, p as int) == Some(at as int),
            forall|i: int| 0 <= i < unfinished@.len() ==> check_valid((#[trigger] unfinished@[i]).measurements@, views),
            lists@.len() == p,
            forall|q: int| 0 <= q < p ==> (#[trigger] ports_view(lists@)[q]).len() == port_types@[outputs@[q]].stabilizers,
            forall|q: int, s: int|
                0 <= q < p && 0 <= s < ports_view(lists@)[q].len() ==> #[trigger] ports_view(lists@)[q][s] == expanded_check(
                    unfinished@[open_checks(outputs@, port_types@, q)->0 + s],
                    views,
                    gid,
                ),
        decreases outputs@.len() - p,
    {
        proof {
            lemma_open_checks_grow(outputs@, port_types@, p as int + 1, outputs@.len() as int);
        }
        let count: usize = port_types.get(outputs[p]).unwrap().stabilizers;
        let mut list: Vec<ExpandedCheck> = Vec::new();
        let mut s: usize = 0;
        while s < count
            invariant
                s <= count,
                at + count <= total,
                total == unfinished@.len(),
                views == ports_view(inputs@),
                forall|i: int| 0 <= i < unfinished@.len() ==> check_valid((#[trigger] unfinished@[i]).measurements@, views),
                list@.len() == s,
                forall|k: int| 0 <= k < s ==> #[trigger] port_view(list@)[k] == expanded_check(unfinished@[at + k], views, gid),
            decreases count - s,
        {
            assert(check_valid(unfinished@[at + s].measurements@, views));
            let expanded = expand_check_measurements(&unfinished[at + s], inputs, gid);
            let ghost before = list@;
            list.push(expanded);
            assert forall|k: int| 0 <= k < s + 1 implies #[trigger] port_view(list@)[k] == expanded_check(
                unfinished@[at + k],
                views,
                gid,
            ) by {
                if k < s {
                    assert(port_view(before)[k] == port_view(list@)[k]);
                }
            }
            s += 1;
        }
        let ghost before = lists@;
        lists.push(list);
        proof {
            assert(ports_view(lists@) =~= ports_view(before).push(port_view(list@)));
        }
        at += count;
        p += 1;
    }
    lists
}

// ---------------------------------------------------------------------------
// Taking the inputs
// ---------------------------------------------------------------------------

/// The connectors name open outputs of compiled gadgets, each once.
pub open spec fn can_take(gadgets: Map<u64, JitGadgetState>, connectors: Seq<Connector>) -> bool {
    &&& forall|k: int|
        0 <= k < connectors.len() ==> {
            &&& gadgets.contains_key((#[trigger] connectors[k]).gid)
            &&& connectors[k].port < gadgets[connectors[k].gid].outputs@.len()
            &&& gadgets[connectors[k].gid].outputs@[connectors[k].port as int] is None
        }
    &&& forall|i: int, j: int| 0 <= i < j < connectors.len() ==> #[trigger] connectors[i] != #[trigger] connectors[j]
}

/// The open checks that each connector brings.
pub open spec fn inputs_of(gadgets: Map<u64, JitGadgetState>, connectors: Seq<Connector>) -> Seq<Seq<ExpandedSpec>> {
    connectors.map_values(|c: Connector| ports_view(gadgets[c.gid].output_checks@)[c.port as int])
}

/// The open checks of gadget `peer` after the first `n` connectors took theirs.
pub open spec fn emptied(lists: Seq<Seq<ExpandedSpec>>, peer: u64, connectors: Seq<Connector>, n: int) -> Seq<Seq<ExpandedSpec>>
    decreases n,
{
    if n <= 0 {
        lists
    } else {
        let before = emptied(lists, peer, connectors, n - 1);
        if connectors[n - 1].gid == peer {
            before.update(connectors[n - 1].port as int, Seq::empty())
        } else {
            before
        }
    }
}

/// A connector keeps all lists but the one it takes.
proof fn lemma_emptied(lists: Seq<Seq<ExpandedSpec>>, peer: u64, connectors: Seq<Connector>, n: int)
    requires
        0 <= n <= connectors.len(),
        forall|k: int| 0 <= k < n && (#[trigger] connectors[k]).gid == peer ==> connectors[k].port < lists.len(),
    ensures
        emptied(lists, peer, connectors, n).len() == lists.len(),
        forall|p: int|
            0 <= p < lists.len() ==> (#[trigger] emptied(lists, peer, connectors, n)[p]).len() == 0 || emptied(
                lists,
                peer,
                connectors,
                n,
            )[p] == lists[p],
        forall|p: int|
            0 <= p < lists.len() && (forall|k: int| 0 <= k < n ==> #[trigger] connectors[k] != (Connector { gid: peer, port: p as u64 }))
                && p <= u64::MAX ==> #[trigger] emptied(lists, peer, connectors, n)[p] == lists[p],
    decreases n,
{
    if n > 0 {
        lemma_emptied(lists, peer, connectors, n - 1);
        let before = emptied(lists, peer, connectors, n - 1);
        let after = emptied(lists, peer, connectors, n);
        assert forall|p: int|
            0 <= p < lists.len() && (forall|k: int| 0 <= k < n ==> #[trigger] connectors[k] != (Connector { gid: peer, port: p as u64 }))
                && p <= u64::MAX implies #[trigger] after[p] == lists[p] by {
            assert(connectors[n - 1] != (Connector { gid: peer, port: p as u64 }));
            assert(before[p] == lists[p]);
        }
    }
}

/// The gadgets after the first `n` connectors of gadget `gid` took their inputs.
pub open spec fn taken(
    before: Map<u64, JitGadgetState>,
    after: Map<u64, JitGadgetState>,
    gid: u64,
    connectors: Seq<Connector>,
    n: int,
) -> bool {
    &&& after.dom() == before.dom()
    &&& forall|g: u64| #[trigger]
        before.contains_key(g) ==> {
            &&& after[g].gtype == before[g].gtype
            &&& after[g].outputs@ == linked(before[g].outputs@, g, gid, connectors, n)
            &&& ports_view(after[g].output_checks@) == emptied(ports_view(before[g].output_checks@), g, connectors, n)
            &&& after[g].input_virtual_check_map == before[g].input_virtual_check_map
            &&& after[g].output_virtual_checks == before[g].output_virtual_checks
        }
}

/// Each gadget has one list of open checks for each output.
pub open spec fn lists_fit(gadgets: Map<u64, JitGadgetState>) -> bool {
    forall|g: u64| #[trigger] gadgets.contains_key(g) ==> gadgets[g].output_checks@.len() == gadgets[g].outputs@.len()
}

/// Whether the connectors name open outputs of compiled gadgets, each once.
fn connectors_open(gadgets: &Registry<JitGadgetState>, connectors: &Vec<Connector>) -> (yes: bool)
    requires
        gadgets.wf(),
    ensures
        yes == can_take(gadgets@, connectors@),
{
    let mut k: usize = 0;
    while k < connectors.len()
        invariant
            gadgets.wf(),
            k <= connectors@.len(),
            forall|i: int|
                0 <= i < k ==> {
                    &&& gadgets@.contains_key((#[trigger] connectors@[i]).gid)
                    &&& connectors@[i].port < gadgets@[connectors@[i].gid].outputs@.len()
                    &&& gadgets@[connectors@[i].gid].outputs@[connectors@[i].port as int] is None
                },
            forall|i: int, j: int| 0 <= i < j < k ==> #[trigger] connectors@[i] != #[trigger] connectors@[j],
        decreases connectors@.len() - k,
    {
        let connector = connectors[k];
        let open = match gadgets.get(connector.gid) {
            Some(gadget) => if connector.port < gadget.outputs.len() as u64 {
                gadget.outputs[connector.port as usize].is_none()
            } else {
                false
            },
            None => false,
        };
        if !open {
            assert(connectors@[k as int] == connector);
            return false;
        }
        let mut i: usize = 0;
        while i < k
            invariant
                i <= k < connectors@.len(),
                connector == connectors@[k as int],
                forall|j: int| 0 <= j < i ==> #[trigger] connectors@[j] != connector,
            decreases k - i,
        {
            if connectors[i] == connector {
                assert(connectors@[i as int] == connectors@[k as int]);
                return false;
            }
            i += 1;
        }
        k += 1;
    }
    true
}

/// Whether every open check that the checks use is brought by a connector.
fn references_brought(checks: &Vec<JitCheck>, connectors: &Vec<Connector>, gadgets: &Registry<JitGadgetState>) -> (yes: bool)
    requires
        gadgets.wf(),
        lists_fit(gadgets@),
        can_take(gadgets@, connectors@),
    ensures
        yes == (forall|i: int|
            0 <= i < checks@.len() ==> check_valid(
                (#[trigger] checks@[i]).measurements@,
                inputs_of(gadgets@, connectors@),
            )),
{
    let ghost inputs = inputs_of(gadgets@, connectors@);
    let mut i: usize = 0;
    while i < checks.len()
        invariant
            i <= checks@.len(),
            gadgets.wf(),
            lists_fit(gadgets@),
            can_take(gadgets@, connectors@),
            inputs == inputs_of(gadgets@, connectors@),
            forall|k: int| 0 <= k < i ==> check_valid((#[trigger] checks@[k]).measurements@, inputs),
        decreases checks@.len() - i,
    {
        let list = &checks[i].measurements;
        let mut k: usize = 0;
        while k < list.len()
            invariant
                i < checks@.len(),
                *list == checks@[i as int].measurements,
                k <= list@.len(),
                gadgets.wf(),
                lists_fit(gadgets@),
                can_take(gadgets@, connectors@),
                inputs == inputs_of(gadgets@, connectors@),
                forall|j: int| 0 <= j < k ==> measurement_valid(#[trigger] list@[j], inputs),
            decreases list@.len() - k,
        {
            let m = list[k];
            if let Some(p) = m.input_port {
                let mut brought = false;
                if p < connectors.len() as u64 {
                    let connector = connectors[p as usize];
                    assert(gadgets@.contains_key(connectors@[p as int].gid));
                    let peer = gadgets.get(connector.gid).unwrap();
                    assert(peer.output_checks.len() == peer.outputs@.len());
                    assert(connector.port < peer.output_checks.len());
                    assert(inputs[p as int] == port_view(peer.output_checks@[connector.port as int]@));
                    brought = m.measurement_index < peer.output_checks[connector.port as usize].len() as u64;
                }
                if !brought {
                    assert(!measurement_valid(list@[k as int], inputs));
                    assert(!check_valid(checks@[i as int].measurements@, inputs));
                    return false;
                }
            }
            k += 1;
        }
        i += 1;
    }
    true
}

/// Takes the open checks that the connectors of gadget `gid` bring, and connects it.
fn take_inputs(gadgets: &mut Registry<JitGadgetState>, gid: u64, connectors: &Vec<Connector>) -> (inputs: Vec<Vec<ExpandedCheck>>)
    requires
        old(gadgets).wf(),
        lists_fit(old(gadgets)@),
        can_take(old(gadgets)@, connectors@),
    ensures
        final(gadgets).wf(),
        ports_view(inputs@) == inputs_of(old(gadgets)@, connectors@),
        taken(old(gadgets)@, final(gadgets)@, gid, connectors@, connectors@.len() as int),
{
    let ghost before = gadgets@;
    let ghost all = inputs_of(before, connectors@);
    let mut inputs: Vec<Vec<ExpandedCheck>> = Vec::new();
    let mut k: usize = 0;
    while k < connectors.len()
        invariant
            gadgets.wf(),
            k <= connectors@.len(),
            before == old(gadgets)@,
            all == inputs_of(before, connectors@),
            lists_fit(before),
            can_take(before, connectors@),
            taken(before, gadgets@, gid, connectors@, k as int),
            ports_view(inputs@) =~= all.take(k as int),
        decreases connectors@.len() - k,
    {
        let connector = connectors[k];
        let ghost now = gadgets@;
        proof {
            assert(before.contains_key(connectors@[k as int].gid));
            assert(ports_exist(before[connector.gid].outputs@, connector.gid, connectors@, k as int));
            lemma_linked_len(before[connector.gid].outputs@, connector.gid, gid, connectors@, k as int);
            lemma_emptied(ports_view(before[connector.gid].output_checks@), connector.gid, connectors@, k as int);
            assert forall|j: int| 0 <= j < k implies #[trigger] connectors@[j] != (Connector {
                gid: connector.gid,
                port: connector.port as int as u64,
            }) by {
                assert(connectors@[j] != connectors@[k as int]);
            }
            assert(emptied(ports_view(before[connector.gid].output_checks@), connector.gid, connectors@, k as int)[connector.port as int]
                == ports_view(before[connector.gid].output_checks@)[connector.port as int]);
            assert(ports_view(now[connector.gid].output_checks@).len() == now[connector.gid].output_checks@.len());
        }
        let mut list: Vec<ExpandedCheck> = Vec::new();
        let peer = gadgets.get_mut(connector.gid);
        assert(connector.port < peer.outputs.len());
        peer.outputs.set(connector.port as usize, Some(Connector { gid, port: k as u64 }));
        let ghost lists = peer.output_checks@;
        list = peer.output_checks[connector.port as usize].split_off(0);
        let ghost shorter = peer.output_checks@;
        proof {
            assert(shorter =~= lists.update(connector.port as int, shorter[connector.port as int]));
            assert(list@ =~= lists[connector.port as int]@);
            assert(shorter[connector.port as int]@ =~= Seq::<ExpandedCheck>::empty());
            assert(port_view(shorter[connector.port as int]@) =~= Seq::<ExpandedSpec>::empty());
            assert(ports_view(shorter) =~= ports_view(lists).update(connector.port as int, Seq::empty()));
        }
        let ghost taken_before = inputs@;
        inputs.push(list);
        proof {
            assert(ports_view(inputs@) =~= ports_view(taken_before).push(port_view(list@)));
            assert(port_view(list@) == ports_view(lists)[connector.port as int]);
            assert(all[k as int] == ports_view(before[connector.gid].output_checks@)[connector.port as int]);
            assert forall|g: u64| #[trigger] before.contains_key(g) implies {
                &&& gadgets@[g].gtype == before[g].gtype
                &&& gadgets@[g].outputs@ == linked(before[g].outputs@, g, gid, connectors@, k as int + 1)
                &&& ports_view(gadgets@[g].output_checks@) == emptied(ports_view(before[g].output_checks@), g, connectors@, k as int + 1)
                &&& gadgets@[g].input_virtual_check_map == before[g].input_virtual_check_map
                &&& gadgets@[g].output_virtual_checks == before[g].output_virtual_checks
            } by {
                assert(now.dom().contains(g));
                if g != connector.gid {
                    assert(gadgets@[g] == now[g]);
                }
            }
            assert(gadgets@.dom() =~= before.dom());
        }
        k += 1;
    }
    assert(all.take(k as int) =~= all);
    inputs
}

// ---------------------------------------------------------------------------
// The compiler
// ---------------------------------------------------------------------------

/// The compiler's state.
pub struct JitCompiler {
    pub jit_port_types: Registry<JitPortType>,
    pub jit_gadget_types: Registry<JitGadgetType>,
    pub current_gid: u64,
    pub gadgets: Registry<JitGadgetState>,
    pub waits: CompileWaits,
}

/// What compiling a gadget gives at once.
#[derive(Debug)]
pub struct Compiled {
    pub gadget: bin::Gadget,
    pub check_model_type: CheckModelType,
    pub check_model: CheckModel,
}

/// The measurements of open checks belong to compiled gadgets.
pub open spec fn outputs_known(gadgets: Map<u64, JitGadgetState>) -> bool {
    forall|g: u64| #[trigger] gadgets.contains_key(g) ==> inputs_known(ports_view(gadgets[g].output_checks@), gadgets)
}

/// A clash of types in a library.
pub enum JitClash {
    PortType(u64),
    GadgetType(u64),
}

/// A gadget gets the id that it asks for; one that asks for none gets an id that no
/// compiled gadget has or had, and the next gadgets get others. Its check model and the
/// type of it have the same id.
pub proof fn law_compiled_id_is_fresh(before: JitCompiler, request: bin::Gadget, compiled: Compiled, after: JitCompiler)
    requires
        before.wf(),
        before.compilable(request),
        before.is_compiled(request, compiled),
        before.compiled_state(request, after),
    ensures
        request.gid != 0 ==> compiled.gadget.gid == request.gid,
        request.gid == 0 ==> compiled.gadget.gid >= 1 && !before.gadgets@.contains_key(compiled.gadget.gid),
        request.gid == 0 ==> forall|g: u64| #[trigger] before.gadgets@.contains_key(g) ==> g < compiled.gadget.gid,
        compiled.check_model.gid == compiled.gadget.gid,
        compiled.check_model.cid == compiled.gadget.gid,
        compiled.check_model.ctype == compiled.gadget.gid,
        compiled.check_model_type.ctype == compiled.gadget.gid,
        compiled.check_model_type.gtype == request.gtype,
        compiled.check_model_type.checks@.len() == before.jit_gadget_types@[request.gtype].finished_checks@.len(),
        after.gadgets@.contains_key(compiled.gadget.gid),
        compiled.gadget.gid < after.current_gid,
        before.current_gid <= after.current_gid,
{
}

impl JitCompiler {
    /// The compiler's invariant: the tables are in order, and every compiled gadget has an
    /// id below the next one.
    pub open spec fn wf(&self) -> bool {
        &&& self.jit_port_types.wf()
        &&& self.jit_gadget_types.wf()
        &&& self.gadgets.wf()
        &&& lists_fit(self.gadgets@)
        &&& outputs_known(self.gadgets@)
        &&& self.current_gid >= 1
        &&& forall|g: u64| #[trigger] self.gadgets@.contains_key(g) ==> 1 <= g < self.current_gid
    }

    /// A compiler without types and gadgets.
    pub fn new() -> (compiler: JitCompiler)
        ensures
            compiler.wf(),
            compiler.jit_port_types@ == Map::<u64, JitPortType>::empty(),
            compiler.jit_gadget_types@ == Map::<u64, JitGadgetType>::empty(),
            compiler.gadgets@ == Map::<u64, JitGadgetState>::empty(),
            compiler.current_gid == 1,
            compiler.waits@ == WaitsSpec::none(),
            compiler.waits.revision == 0,
    {
        JitCompiler {
            jit_port_types: Registry::new(),
            jit_gadget_types: Registry::new(),
            current_gid: 1,
            gadgets: Registry::new(),
            waits: CompileWaits::new(),
        }
    }

    /// Forgets all gadgets; the types stay.
    pub fn reset(&mut self)
        requires
            old(self).wf(),
        ensures
            final(self).wf(),
            final(self).jit_port_types == old(self).jit_port_types,
            final(self).jit_gadget_types == old(self).jit_gadget_types,
            final(self).gadgets@ == Map::<u64, JitGadgetState>::empty(),
            final(self).current_gid == 1,
            final(self).waits@ == WaitsSpec::none(),
            final(self).waits.revision == next_revision(old(self).waits.revision),
    {
        self.current_gid = 1;
        self.gadgets = Registry::new();
        self.waits.clear();
    }

    /// Whether a gadget was compiled.
    pub fn contains_gid(&self, gid: u64) -> (found: bool)
        ensures
            found == self.gadgets@.contains_key(gid),
    {
        self.gadgets.contains_key(gid)
    }

    /// Loads the types of a library, up to the first whose number is taken: port types
    /// first.
    pub fn load_library(&mut self, library: JitLibrary) -> (clash: Option<JitClash>)
        requires
            old(self).wf(),
        ensures
            final(self).wf(),
            final(self).gadgets == old(self).gadgets,
            final(self).current_gid == old(self).current_gid,
            final(self).waits == old(self).waits,
            match clash {
                Some(JitClash::PortType(id)) => loads(
                    old(self).jit_port_types@,
                    library.port_types@,
                    final(self).jit_port_types@,
                    Some(id),
                ) && final(self).jit_gadget_types@ == old(self).jit_gadget_types@,
                Some(JitClash::GadgetType(id)) => loads(
                    old(self).jit_port_types@,
                    library.port_types@,
                    final(self).jit_port_types@,
                    None,
                ) && loads(
                    old(self).jit_gadget_types@,
                    library.gadget_types@,
                    final(self).jit_gadget_types@,
                    Some(id),
                ),
                None => loads(old(self).jit_port_types@, library.port_types@, final(self).jit_port_types@, None) && loads(
                    old(self).jit_gadget_types@,
                    library.gadget_types@,
                    final(self).jit_gadget_types@,
                    None,
                ),
            },
    {
        if let Some(id) = load_types(&mut self.jit_port_types, library.port_types) {
            return Some(JitClash::PortType(id));
        }
        if let Some(id) = load_types(&mut self.jit_gadget_types, library.gadget_types) {
            return Some(JitClash::GadgetType(id));
        }
        None
    }

    /// The id that a new gadget gets: the one that it asks for, or the next one.
    pub open spec fn new_gid(&self, request: bin::Gadget) -> u64 {
        if request.gid != 0 {
            request.gid
        } else {
            self.current_gid
        }
    }

    /// A gadget can be compiled: its type and the types of its outputs are known, its
    /// connectors name open outputs, and these bring every open check that the type
    /// refers to.
    pub open spec fn compilable(&self, request: bin::Gadget) -> bool {
        &&& self.new_gid(request) < u64::MAX
        &&& self.jit_gadget_types@.contains_key(request.gtype)
        &&& can_take(self.gadgets@, request.connectors@)
        &&& {
            let gadget_type = self.jit_gadget_types@[request.gtype];
            let inputs = inputs_of(self.gadgets@, request.connectors@);
            &&& forall|i: int|
                0 <= i < gadget_type.finished_checks@.len() ==> check_valid(
                    (#[trigger] gadget_type.finished_checks@[i]).measurements@,
                    inputs,
                )
            &&& forall|i: int|
                0 <= i < gadget_type.unfinished_checks@.len() ==> check_valid(
                    (#[trigger] gadget_type.unfinished_checks@[i]).measurements@,
                    inputs,
                )
            &&& open_checks(gadget_type.base.outputs@, self.jit_port_types@, gadget_type.base.outputs@.len() as int) == Some(
                gadget_type.unfinished_checks@.len() as int,
            )
        }
    }

    /// The state of a gadget that was just compiled.
    pub open spec fn is_new_state(&self, request: bin::Gadget, state: JitGadgetState) -> bool {
        let gadget_type = self.jit_gadget_types@[request.gtype];
        let inputs = inputs_of(self.gadgets@, request.connectors@);
        &&& state.gtype == request.gtype
        &&& state.outputs@ == Seq::new(gadget_type.base.outputs@.len(), |i: int| None::<Connector>)
        &&& are_output_checks(
            ports_view(state.output_checks@),
            gadget_type.base.outputs@,
            self.jit_port_types@,
            gadget_type.unfinished_checks@,
            inputs,
            self.new_gid(request),
        )
        &&& all_refs_view(state.input_virtual_check_map@) == input_map(
            gadget_type.finished_checks@,
            gadget_type.unfinished_checks@,
            inputs,
        )
        &&& state.output_virtual_checks is None
    }

    /// What compiling gives: the gadget under its id, and a check model of its own.
    pub open spec fn is_compiled(&self, request: bin::Gadget, compiled: Compiled) -> bool {
        let gid = self.new_gid(request);
        let gadget_type = self.jit_gadget_types@[request.gtype];
        &&& compiled.gadget == (bin::Gadget { gid, ..request })
        &&& compiled.check_model_type.ctype == gid
        &&& compiled.check_model_type.gtype == request.gtype
        &&& are_model_checks(
            compiled.check_model_type.checks@,
            compiled.check_model_type.remote_gadgets@,
            gadget_type.finished_checks@,
            inputs_of(self.gadgets@, request.connectors@),
            gid,
            self.gadgets@,
        )
        &&& compiled.check_model == (CheckModel { cid: gid, ctype: gid, gid, modifier: None })
    }

    /// The state after a gadget was compiled.
    pub open spec fn compiled_state(&self, request: bin::Gadget, after: JitCompiler) -> bool {
        let gid = self.new_gid(request);
        &&& after.jit_port_types == self.jit_port_types
        &&& after.jit_gadget_types == self.jit_gadget_types
        &&& after.waits == self.waits
        &&& after.current_gid == (if self.current_gid <= gid {
            (gid + 1) as u64
        } else {
            self.current_gid
        })
        &&& after.gadgets@.contains_key(gid)
        &&& self.is_new_state(request, after.gadgets@[gid])
        &&& exists|peers: Map<u64, JitGadgetState>| #[trigger]
            taken(self.gadgets@, peers, gid, request.connectors@, request.connectors@.len() as int) && after.gadgets@
                == peers.insert(gid, after.gadgets@[gid])
    }

    /// Compiles a gadget: it takes the open checks of its peers, and gets a check model
    /// with its finished checks. `None`, with nothing changed, if it cannot be compiled.
    pub fn compile(&mut self, request: bin::Gadget) -> (compiled: Option<Compiled>)
        requires
            old(self).wf(),
        ensures
            final(self).wf(),
            match compiled {
                Some(c) => {
                    &&& old(self).compilable(request)
                    &&& old(self).is_compiled(request, c)
                    &&& old(self).compiled_state(request, *final(self))
                },
                None => !old(self).compilable(request) && *final(self) == *old(self),
            },
    {
        let gid: u64 = if request.gid != 0 {
            request.gid
        } else {
            self.current_gid
        };
        if gid == u64::MAX {
            return None;
        }
        let Some(gadget_type) = self.jit_gadget_types.get(request.gtype) else {
            return None;
        };
        if !connectors_open(&self.gadgets, &request.connectors) {
            return None;
        }
        if !references_brought(&gadget_type.finished_checks, &request.connectors, &self.gadgets) {
            return None;
        }
        if !references_brought(&gadget_type.unfinished_checks, &request.connectors, &self.gadgets) {
            return None;
        }
        let unfinished: usize = gadget_type.unfinished_checks.len();
        match count_open_checks(&gadget_type.base.outputs, &self.jit_port_types, unfinished) {
            None => {
                return None;
            },
            Some(count) => {
                if count != unfinished {
                    return None;
                }
            },
        }
        let ghost start = *self;
        let ghost before = self.gadgets@;
        let ghost inputs_spec = inputs_of(before, request.connectors@);
        proof {
            assert(inputs_known(inputs_spec, before)) by {
                assert forall|p: int, m: int, pair: (u64, u64)|
                    0 <= p < inputs_spec.len() && 0 <= m < inputs_spec[p].len() && #[trigger] inputs_spec[p][m].measurements.contains(pair)
                    implies before.contains_key(pair.0) by {
                    let c = request.connectors@[p];
                    assert(before.contains_key(c.gid));
                    assert(ports_view(before[c.gid].output_checks@)[c.port as int][m].measurements.contains(pair));
                }
            }
        }
        let inputs = take_inputs(&mut self.gadgets, gid, &request.connectors);
        let ghost peers = self.gadgets@;
        proof {
            assert(inputs_known(inputs_spec, peers));
        }
        let (checks, remote_gadgets) = build_model_checks(&gadget_type.finished_checks, &inputs, gid, &self.gadgets);
        proof {
            lemma_model_checks_of_peers(
                checks@,
                remote_gadgets@,
                gadget_type.finished_checks@,
                inputs_spec,
                gid,
                before,
                peers,
            );
        }
        let input_virtual_check_map = build_input_map(&gadget_type.finished_checks, &gadget_type.unfinished_checks, &inputs);
        let output_checks = build_output_checks(
            &gadget_type.base.outputs,
            &self.jit_port_types,
            &gadget_type.unfinished_checks,
            &inputs,
            gid,
        );
        let mut outputs: Vec<Option<Connector>> = Vec::new();
        let mut p: usize = 0;
        while p < gadget_type.base.outputs.len()
            invariant
                p <= gadget_type.base.outputs@.len(),
                outputs@ =~= Seq::new(p as nat, |i: int| None::<Connector>),
            decreases gadget_type.base.outputs@.len() - p,
        {
            outputs.push(None);
            p += 1;
        }
        let state = JitGadgetState {
            gtype: request.gtype,
            outputs,
            output_checks,
            input_virtual_check_map,
            output_virtual_checks: None,
        };
        proof {
            lemma_outputs_stay_known(
                before,
                peers,
                gid,
                request.connectors@,
                state,
                gadget_type.base.outputs@,
                self.jit_port_types@,
                gadget_type.unfinished_checks@,
            );
        }
        self.gadgets.insert(gid, state);
        let gtype: u64 = request.gtype;
        if self.current_gid <= gid {
            self.current_gid = gid + 1;
        }
        proof {
            assert(self.gadgets@ == peers.insert(gid, self.gadgets@[gid]));
            assert(taken(before, peers, gid, request.connectors@, request.connectors@.len() as int));
        }
        Some(
            Compiled {
                gadget: bin::Gadget { gid, ..request },
                check_model_type: CheckModelType { ctype: gid, gtype, checks, remote_gadgets },
                check_model: CheckModel { cid: gid, ctype: gid, gid, modifier: None },
            },
        )
    }
}

/// Taking inputs changes no gadget type, so the checks of a model say the same of the
/// gadgets before and after.
proof fn lemma_model_checks_of_peers(
    checks: Seq<Check>,
    remotes: Seq<RemoteGadget>,
    finished: Seq<JitCheck>,
    inputs: Seq<Seq<ExpandedSpec>>,
    gid: u64,
    before: Map<u64, JitGadgetState>,
    peers: Map<u64, JitGadgetState>,
)
    requires
        are_model_checks(checks, remotes, finished, inputs, gid, peers),
        peers.dom() == before.dom(),
        forall|g: u64| #[trigger] before.contains_key(g) ==> peers[g].gtype == before[g].gtype,
        inputs_known(inputs, before),
        forall|i: int| 0 <= i < finished.len() ==> check_valid((#[trigger] finished[i]).measurements@, inputs),
    ensures
        are_model_checks(checks, remotes, finished, inputs, gid, before),
{
    let (ids, minima) = choose|ids: Seq<u64>, minima: Seq<u64>|
        ids.no_duplicates() && !ids.contains(gid) && minima.len() == ids.len() && #[trigger] are_remote_gadgets(
            remotes,
            ids,
            minima,
            gtype_of(peers),
        );
    lemma_ids_bounded(ids);
    assert forall|i: int| 0 <= i < ids.len() implies #[trigger] remotes[i] == remote_gadget_of(
        ids[i],
        gtype_of(before)(ids[i]),
        minima[i],
    ) by {
        assert(remotes[i] == remote_gadget_of(ids[i], gtype_of(peers)(ids[i]), minima[i]));
        assert(ids.contains(ids[i]));
        assert(remote_used(checks, i));
        let own = RemoteMeasurement { remote_gadget: Some(i as u64), measurement_index: 0 };
        let f = choose|f: int| 0 <= f < checks.len() && (#[trigger] checks[f]).measurements@.contains(own);
        let expanded = expanded_check(finished[f], inputs, gid);
        let list = checks[f].measurements@;
        let k = list.index_of(own);
        assert(measures(list, remotes, gid, expanded.measurements));
        let pair = crate::jit_checks::measured(list[k], remotes, gid);
        assert(crate::jit_checks::is_member(pair, expanded.measurements));
        assert(check_valid(finished[f].measurements@, inputs));
        lemma_expanded_known(
            finished[f].naturally_flipped,
            finished[f].measurements@,
            inputs,
            gid,
            before,
            finished[f].measurements@.len() as int,
            (pair.0, pair.1 as u64),
        );
    }
    assert(ids.no_duplicates() && !ids.contains(gid) && minima.len() == ids.len() && are_remote_gadgets(
        remotes,
        ids,
        minima,
        gtype_of(before),
    ));
}

/// A compiled gadget keeps open checks within what was compiled.
proof fn lemma_outputs_stay_known(
    before: Map<u64, JitGadgetState>,
    peers: Map<u64, JitGadgetState>,
    gid: u64,
    connectors: Seq<Connector>,
    state: JitGadgetState,
    outputs: Seq<u64>,
    port_types: Map<u64, JitPortType>,
    unfinished: Seq<JitCheck>,
)
    requires
        lists_fit(before),
        outputs_known(before),
        can_take(before, connectors),
        taken(before, peers, gid, connectors, connectors.len() as int),
        state.outputs@.len() == outputs.len(),
        are_output_checks(ports_view(state.output_checks@), outputs, port_types, unfinished, inputs_of(before, connectors), gid),
        open_checks(outputs, port_types, outputs.len() as int) == Some(unfinished.len() as int),
        inputs_known(inputs_of(before, connectors), before),
        forall|i: int| 0 <= i < unfinished.len() ==> check_valid((#[trigger] unfinished[i]).measurements@, inputs_of(before, connectors)),
    ensures
        lists_fit(peers.insert(gid, state)),
        outputs_known(peers.insert(gid, state)),
{
    let after = peers.insert(gid, state);
    let inputs = inputs_of(before, connectors);
    assert forall|g: u64| #[trigger] after.contains_key(g) implies after[g].output_checks@.len() == after[g].outputs@.len()
        && inputs_known(ports_view(after[g].output_checks@), after) by {
        let lists = ports_view(after[g].output_checks@);
        if g == gid {
            assert(lists.len() == state.output_checks@.len());
            assert forall|p: int, m: int, pair: (u64, u64)|
                0 <= p < lists.len() && 0 <= m < lists[p].len() && #[trigger] lists[p][m].measurements.contains(pair) implies after.contains_key(pair.0) by {
                lemma_open_checks_grow(outputs, port_types, p, outputs.len() as int);
                lemma_open_checks_grow(outputs, port_types, p + 1, outputs.len() as int);
                lemma_open_checks_grow(outputs, port_types, 0, p);
                let n = open_checks(outputs, port_types, p)->0 + m;
                assert(lists[p].len() == port_types[outputs[p]].stabilizers);
                assert(lists[p][m] == expanded_check(unfinished[n], inputs, gid));
                assert(check_valid(unfinished[n].measurements@, inputs));
                lemma_expanded_known(
                    unfinished[n].naturally_flipped,
                    unfinished[n].measurements@,
                    inputs,
                    gid,
                    before,
                    unfinished[n].measurements@.len() as int,
                    pair,
                );
            }
        } else {
            assert(before.contains_key(g));
            let own = ports_view(before[g].output_checks@);
            lemma_linked_len(before[g].outputs@, g, gid, connectors, connectors.len() as int);
            lemma_emptied(own, g, connectors, connectors.len() as int);
            assert(lists.len() == peers[g].output_checks@.len());
            assert forall|p: int, m: int, pair: (u64, u64)|
                0 <= p < lists.len() && 0 <= m < lists[p].len() && #[trigger] lists[p][m].measurements.contains(pair) implies after.contains_key(pair.0) by {
                assert(emptied(own, g, connectors, connectors.len() as int)[p] == own[p]);
                assert(own[p][m].measurements.contains(pair));
            }
        }
    }
}

/// What the peers are told of an open check counts its uses: a check of the gadget type is
/// listed as often as it measures the open check.
pub proof fn law_references_count_the_uses(
    finished: Seq<JitCheck>,
    unfinished: Seq<JitCheck>,
    inputs: Seq<Seq<ExpandedSpec>>,
    p: int,
    m: int,
    idx: u64,
)
    requires
        0 <= p < inputs.len(),
        p <= u64::MAX,
        0 <= m < inputs[p].len(),
        finished.len() <= u64::MAX,
        unfinished.len() <= u64::MAX,
    ensures
        input_map(finished, unfinished, inputs).len() == inputs.len(),
        input_map(finished, unfinished, inputs)[p].len() == inputs[p].len(),
        idx < finished.len() ==> input_map(finished, unfinished, inputs)[p][m].finished.filter(|i: u64| i == idx).len()
            == finished[idx as int].measurements@.filter(
            |x: JitMeasurement| x.input_port == Some(p as u64) && x.measurement_index == m,
        ).len(),
        idx >= finished.len() ==> !input_map(finished, unfinished, inputs)[p][m].finished.contains(idx),
        idx < unfinished.len() ==> input_map(finished, unfinished, inputs)[p][m].unfinished.filter(
            |i: u64| i == idx,
        ).len() == unfinished[idx as int].measurements@.filter(
            |x: JitMeasurement| x.input_port == Some(p as u64) && x.measurement_index == m,
        ).len(),
        idx >= unfinished.len() ==> !input_map(finished, unfinished, inputs)[p][m].unfinished.contains(idx),
{
    lemma_uses_counted(finished, p, m, finished.len() as int, idx);
    lemma_uses_counted(unfinished, p, m, unfinished.len() as int, idx);
}

proof fn lemma_uses_in_check(measurements: Seq<JitMeasurement>, p: int, m: int, own: u64, k: int, idx: u64)
    requires
        0 <= k <= measurements.len(),
    ensures
        own == idx ==> refs_in(measurements, p, m, own as int, k).filter(|i: u64| i == idx).len() == measurements.take(
            k,
        ).filter(|x: JitMeasurement| x.input_port == Some(p as u64) && x.measurement_index == m).len(),
        own != idx ==> refs_in(measurements, p, m, own as int, k).filter(|i: u64| i == idx).len() == 0,
        own != idx ==> !refs_in(measurements, p, m, own as int, k).contains(idx),
    decreases k,
{
    reveal(Seq::filter);
    let uses = |x: JitMeasurement| x.input_port == Some(p as u64) && x.measurement_index == m;
    let same = |i: u64| i == idx;
    if k > 0 {
        lemma_uses_in_check(measurements, p, m, own, k - 1, idx);
        assert(measurements.take(k).drop_last() =~= measurements.take(k - 1));
        assert(measurements.take(k).last() == measurements[k - 1]);
        let before = refs_in(measurements, p, m, own as int, k - 1);
        let after = refs_in(measurements, p, m, own as int, k);
        if uses(measurements[k - 1]) {
            assert(after.drop_last() =~= before);
            assert(after.last() == own);
            if own != idx && after.contains(idx) {
                let i = after.index_of(idx);
                assert(before[i] == idx);
                assert(false);
            }
        }
    } else {
        assert(measurements.take(k) =~= Seq::<JitMeasurement>::empty());
    }
}

proof fn lemma_uses_counted(checks: Seq<JitCheck>, p: int, m: int, n: int, idx: u64)
    requires
        0 <= n <= checks.len(),
        n <= u64::MAX,
    ensures
        idx < n ==> refs_of(checks, p, m, n).filter(|i: u64| i == idx).len() == checks[idx as int].measurements@.filter(
            |x: JitMeasurement| x.input_port == Some(p as u64) && x.measurement_index == m,
        ).len(),
        idx >= n ==> refs_of(checks, p, m, n).filter(|i: u64| i == idx).len() == 0,
        idx >= n ==> !refs_of(checks, p, m, n).contains(idx),
    decreases n,
{
    reveal(Seq::filter);
    if n > 0 {
        lemma_uses_counted(checks, p, m, n - 1, idx);
        let list = checks[n - 1].measurements@;
        let before = refs_of(checks, p, m, n - 1);
        let more = refs_in(list, p, m, n - 1, list.len() as int);
        lemma_uses_in_check(list, p, m, (n - 1) as u64, list.len() as int, idx);
        assert(list.take(list.len() as int) =~= list);
        Seq::filter_distributes_over_add(before, more, |i: u64| i == idx);
        if idx >= n && refs_of(checks, p, m, n).contains(idx) {
            let i = refs_of(checks, p, m, n).index_of(idx);
            if i < before.len() {
                assert(before[i] == idx);
            } else {
                assert(more[i - before.len()] == idx);
            }
            assert(false);
        }
    }
}

/// The outputs have as many open checks as the stabilizers of all their port types, and
/// this is known exactly if all port types are.
pub proof fn law_open_checks_are_summed(outputs: Seq<u64>, port_types: Map<u64, JitPortType>, n: int)
    requires
        0 <= n <= outputs.len(),
    ensures
        open_checks(outputs, port_types, n) is Some <==> forall|p: int|
            0 <= p < n ==> port_types.contains_key(#[trigger] outputs[p]),
        open_checks(outputs, port_types, n) is Some ==> open_checks(outputs, port_types, n)->0 == outputs.take(n).fold_left(
            0int,
            |sum: int, ptype: u64| sum + port_types[ptype].stabilizers,
        ),
    decreases n,
{
    if n > 0 {
        law_open_checks_are_summed(outputs, port_types, n - 1);
        assert(outputs.take(n).drop_last() =~= outputs.take(n - 1));
        assert(outputs.take(n).last() == outputs[n - 1]);
    }
}

/// The open checks of all outputs, port by port, are the unfinished checks of the gadget
/// type, expanded, in order.
pub proof fn law_outputs_hold_all_unfinished_checks(
    lists: Seq<Seq<ExpandedSpec>>,
    outputs: Seq<u64>,
    port_types: Map<u64, JitPortType>,
    unfinished: Seq<JitCheck>,
    inputs: Seq<Seq<ExpandedSpec>>,
    gid: u64,
)
    requires
        are_output_checks(lists, outputs, port_types, unfinished, inputs, gid),
        open_checks(outputs, port_types, outputs.len() as int) == Some(unfinished.len() as int),
    ensures
        lists.len() == outputs.len(),
        lists.flatten() == unfinished.map_values(|c: JitCheck| expanded_check(c, inputs, gid)),
{
    lemma_outputs_upto(lists, outputs, port_types, unfinished, inputs, gid, outputs.len() as int);
    assert(lists.take(outputs.len() as int) =~= lists);
    assert(lists.flatten() =~= unfinished.map_values(|c: JitCheck| expanded_check(c, inputs, gid)));
}

proof fn lemma_outputs_upto(
    lists: Seq<Seq<ExpandedSpec>>,
    outputs: Seq<u64>,
    port_types: Map<u64, JitPortType>,
    unfinished: Seq<JitCheck>,
    inputs: Seq<Seq<ExpandedSpec>>,
    gid: u64,
    n: int,
)
    requires
        are_output_checks(lists, outputs, port_types, unfinished, inputs, gid),
        0 <= n <= outputs.len(),
        open_checks(outputs, port_types, n) is Some,
    ensures
        open_checks(outputs, port_types, n)->0 >= 0,
        lists.take(n).flatten() == Seq::new(
            open_checks(outputs, port_types, n)->0 as nat,
            |i: int| expanded_check(unfinished[i], inputs, gid),
        ),
    decreases n,
{
    if n > 0 {
        lemma_outputs_upto(lists, outputs, port_types, unfinished, inputs, gid, n - 1);
        lists.take(n - 1).lemma_flatten_push(lists[n - 1]);
        assert(lists.take(n) =~= lists.take(n - 1).push(lists[n - 1]));
        let before = open_checks(outputs, port_types, n - 1)->0;
        let after = open_checks(outputs, port_types, n)->0;
        let whole = Seq::new(after as nat, |i: int| expanded_check(unfinished[i], inputs, gid));
        assert(lists[n - 1].len() == port_types[outputs[n - 1]].stabilizers);
        assert forall|i: int| 0 <= i < whole.len() implies whole[i] == lists.take(n).flatten()[i] by {
            if i >= before {
                assert(lists[n - 1][i - before] == expanded_check(unfinished[before + (i - before)], inputs, gid));
            }
        }
        assert(lists.take(n).flatten() =~= whole);
    } else {
        assert(lists.take(n) =~= Seq::<Seq<ExpandedSpec>>::empty());
        assert(lists.take(n).flatten() =~= Seq::new(0nat, |i: int| expanded_check(unfinished[i], inputs, gid)));
    }
}

/// A compiled check reads exactly the measurements of the expanded check: its own ones, and
/// those of remote gadgets counted from their biases.
pub proof fn law_compiled_check_reads_the_expanded_measurements(
    compiler: JitCompiler,
    request: bin::Gadget,
    compiled: Compiled,
    f: int,
    pair: (u64, u64),
)
    requires
        compiler.is_compiled(request, compiled),
        0 <= f < compiler.jit_gadget_types@[request.gtype].finished_checks@.len(),
    ensures
        ({
            let gid = compiled.gadget.gid;
            let remotes = compiled.check_model_type.remote_gadgets@;
            let expanded = expanded_check(
                compiler.jit_gadget_types@[request.gtype].finished_checks@[f],
                inputs_of(compiler.gadgets@, request.connectors@),
                gid,
            );
            let check = compiled.check_model_type.checks@[f];
            &&& compiled.check_model_type.checks@.len()
                == compiler.jit_gadget_types@[request.gtype].finished_checks@.len()
            &&& check.naturally_flipped == expanded.flipped
            &&& expanded.measurements.contains(pair) <==> exists|k: int|
                0 <= k < check.measurements@.len() && (match (#[trigger] check.measurements@[k]).remote_gadget {
                    None => gid == pair.0 && check.measurements@[k].measurement_index == pair.1,
                    Some(ri) => remotes[ri as int].absolute_gid == Some(pair.0) && check.measurements@[k].measurement_index
                        + remotes[ri as int].measurement_bias == pair.1,
                })
        }),
{
    let gid = compiled.gadget.gid;
    let remotes = compiled.check_model_type.remote_gadgets@;
    let expanded = expanded_check(
        compiler.jit_gadget_types@[request.gtype].finished_checks@[f],
        inputs_of(compiler.gadgets@, request.connectors@),
        gid,
    );
    let check = compiled.check_model_type.checks@[f];
    assert(measures(check.measurements@, remotes, gid, expanded.measurements));
    if expanded.measurements.contains(pair) {
        let k = choose|k: int|
            0 <= k < check.measurements@.len() && #[trigger] measured(check.measurements@[k], remotes, gid) == (
                pair.0,
                pair.1 as int,
            );
        assert(measurement_resolves(check.measurements@[k], remotes));
    }
    assert forall|k: int|
        0 <= k < check.measurements@.len() && (match (#[trigger] check.measurements@[k]).remote_gadget {
            None => gid == pair.0 && check.measurements@[k].measurement_index == pair.1,
            Some(ri) => remotes[ri as int].absolute_gid == Some(pair.0) && check.measurements@[k].measurement_index
                + remotes[ri as int].measurement_bias == pair.1,
        }) implies expanded.measurements.contains(pair) by {
        assert(is_member(measured(check.measurements@[k], remotes, gid), expanded.measurements));
        assert(measurement_resolves(check.measurements@[k], remotes));
    }
}

/// Taking inputs connects each named output to the input that takes it and leaves it
/// without open checks; all other outputs keep theirs.
pub proof fn law_taken_outputs_are_connected_and_emptied(
    before: Map<u64, JitGadgetState>,
    after: Map<u64, JitGadgetState>,
    gid: u64,
    connectors: Seq<Connector>,
    g: u64,
    port: u64,
)
    requires
        can_take(before, connectors),
        lists_fit(before),
        taken(before, after, gid, connectors, connectors.len() as int),
        before.contains_key(g),
        port < before[g].outputs@.len(),
    ensures
        after.contains_key(g),
        after[g].gtype == before[g].gtype,
        forall|k: int|
            0 <= k < connectors.len() && #[trigger] connectors[k] == (Connector { gid: g, port }) ==> after[g].outputs@[port as int]
                == Some(Connector { gid, port: k as u64 }) && ports_view(after[g].output_checks@)[port as int].len() == 0,
        (forall|k: int| 0 <= k < connectors.len() ==> #[trigger] connectors[k] != (Connector { gid: g, port }))
            ==> after[g].outputs@[port as int] == before[g].outputs@[port as int] && ports_view(
            after[g].output_checks@,
        )[port as int] == ports_view(before[g].output_checks@)[port as int],
{
    assert(after.dom().contains(g));
    let lists = ports_view(before[g].output_checks@);
    assert(before[g].output_checks@.len() == before[g].outputs@.len());
    assert forall|k: int| 0 <= k < connectors.len() && (#[trigger] connectors[k]).gid == g implies connectors[k].port
        < lists.len() by {
    }
    lemma_taken_port(before[g].outputs@, lists, g, gid, connectors, connectors.len() as int, port);
}

proof fn lemma_taken_port(
    outputs: Seq<Option<Connector>>,
    lists: Seq<Seq<ExpandedSpec>>,
    g: u64,
    gid: u64,
    connectors: Seq<Connector>,
    n: int,
    port: u64,
)
    requires
        0 <= n <= connectors.len(),
        outputs.len() == lists.len(),
        port < outputs.len(),
        forall|k: int| 0 <= k < connectors.len() && (#[trigger] connectors[k]).gid == g ==> connectors[k].port < lists.len(),
        forall|i: int, j: int| 0 <= i < j < connectors.len() ==> #[trigger] connectors[i] != #[trigger] connectors[j],
    ensures
        linked(outputs, g, gid, connectors, n).len() == outputs.len(),
        emptied(lists, g, connectors, n).len() == lists.len(),
        forall|k: int|
            0 <= k < n && #[trigger] connectors[k] == (Connector { gid: g, port }) ==> linked(
                outputs,
                g,
                gid,
                connectors,
                n,
            )[port as int] == Some(Connector { gid, port: k as u64 }) && emptied(lists, g, connectors, n)[port as int].len()
                == 0,
        (forall|k: int| 0 <= k < n ==> #[trigger] connectors[k] != (Connector { gid: g, port })) ==> linked(
            outputs,
            g,
            gid,
            connectors,
            n,
        )[port as int] == outputs[port as int] && emptied(lists, g, connectors, n)[port as int] == lists[port as int],
    decreases n,
{
    if n > 0 {
        lemma_taken_port(outputs, lists, g, gid, connectors, n - 1, port);
        let c = connectors[n - 1];
        if c.gid == g && c.port == port {
            assert(c == (Connector { gid: g, port }));
            assert forall|k: int| 0 <= k < n && #[trigger] connectors[k] == (Connector { gid: g, port }) implies k == n - 1 by {
                if k < n - 1 {
                    assert(connectors[k] != connectors[n - 1]);
                }
            }
        } else {
            assert(c != (Connector { gid: g, port }));
            if forall|k: int| 0 <= k < n ==> #[trigger] connectors[k] != (Connector { gid: g, port }) {
                assert forall|k: int| 0 <= k < n - 1 implies #[trigger] connectors[k] != (Connector { gid: g, port }) by {
                }
            }
        }
    }
}

/// A gadget of a known type is compiled if its connectors name open outputs of compiled
/// gadgets, each once, its checks name open checks that come with the connectors, and it has
/// an unfinished check for each stabilizer of its outputs.
pub proof fn law_well_connected_gadget_is_compilable(compiler: JitCompiler, request: bin::Gadget)
    requires
        request.gid != 0 ==> request.gid < u64::MAX,
        request.gid == 0 ==> compiler.current_gid < u64::MAX,
        compiler.jit_gadget_types@.contains_key(request.gtype),
        forall|k: int|
            0 <= k < request.connectors@.len() ==> {
                let c = #[trigger] request.connectors@[k];
                &&& compiler.gadgets@.contains_key(c.gid)
                &&& c.port < compiler.gadgets@[c.gid].outputs@.len()
                &&& compiler.gadgets@[c.gid].outputs@[c.port as int] is None
            },
        forall|i: int, j: int|
            0 <= i < j < request.connectors@.len() ==> #[trigger] request.connectors@[i] != #[trigger] request.connectors@[j],
        ({
            let gadget_type = compiler.jit_gadget_types@[request.gtype];
            let inputs = inputs_of(compiler.gadgets@, request.connectors@);
            &&& forall|i: int, k: int|
                0 <= i < gadget_type.finished_checks@.len() && 0 <= k < gadget_type.finished_checks@[i].measurements@.len()
                    ==> ((#[trigger] gadget_type.finished_checks@[i].measurements@[k]).input_port matches Some(p) ==> p
                    < inputs.len() && gadget_type.finished_checks@[i].measurements@[k].measurement_index < inputs[p as int].len())
            &&& forall|i: int, k: int|
                0 <= i < gadget_type.unfinished_checks@.len() && 0 <= k < gadget_type.unfinished_checks@[i].measurements@.len()
                    ==> ((#[trigger] gadget_type.unfinished_checks@[i].measurements@[k]).input_port matches Some(p) ==> p
                    < inputs.len() && gadget_type.unfinished_checks@[i].measurements@[k].measurement_index
                    < inputs[p as int].len())
            &&& forall|p: int|
                0 <= p < gadget_type.base.outputs@.len() ==> compiler.jit_port_types@.contains_key(
                    #[trigger] gadget_type.base.outputs@[p],
                )
            &&& gadget_type.base.outputs@.fold_left(
                0int,
                |sum: int, ptype: u64| sum + compiler.jit_port_types@[ptype].stabilizers,
            ) == gadget_type.unfinished_checks@.len()
        }),
    ensures
        compiler.compilable(request),
{
    let gadget_type = compiler.jit_gadget_types@[request.gtype];
    let inputs = inputs_of(compiler.gadgets@, request.connectors@);
    let outputs = gadget_type.base.outputs@;
    assert forall|i: int| 0 <= i < gadget_type.finished_checks@.len() implies check_valid(
        (#[trigger] gadget_type.finished_checks@[i]).measurements@,
        inputs,
    ) by {
        let list = gadget_type.finished_checks@[i].measurements@;
        assert forall|k: int| 0 <= k < list.len() implies measurement_valid(#[trigger] list[k], inputs) by {
            assert(gadget_type.finished_checks@[i].measurements@[k] == list[k]);
        }
    }
    assert forall|i: int| 0 <= i < gadget_type.unfinished_checks@.len() implies check_valid(
        (#[trigger] gadget_type.unfinished_checks@[i]).measurements@,
        inputs,
    ) by {
        let list = gadget_type.unfinished_checks@[i].measurements@;
        assert forall|k: int| 0 <= k < list.len() implies measurement_valid(#[trigger] list[k], inputs) by {
            assert(gadget_type.unfinished_checks@[i].measurements@[k] == list[k]);
        }
    }
    law_open_checks_are_summed(outputs, compiler.jit_port_types@, outputs.len() as int);
    assert(outputs.take(outputs.len() as int) =~= outputs);
}

} // verus!
