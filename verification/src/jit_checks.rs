//! Expanding the checks of a gadget: open checks at its inputs are replaced by the
//! measurements that they stand for.
use crate::bin::{RemoteGadget, RemoteMeasurement};
use crate::collections::{difference_of, toggled_pair, PairSet};
use crate::jit::{JitCheck, JitMeasurement};
use crate::sequencer::{explicit, ref_valid, refs_stand_for, unbiased, RemoteRef};
use vstd::prelude::*;

verus! {

/// A check as a set of measurements of gadgets, with its constant part.
pub struct ExpandedCheck {
    pub measurements: PairSet,
    pub flipped: bool,
}

/// The value of an [`ExpandedCheck`].
#[verifier::ext_equal]
pub struct ExpandedSpec {
    pub measurements: Set<(u64, u64)>,
    pub flipped: bool,
}

impl ExpandedCheck {
    /// The check as a mathematical value.
    pub open spec fn view(&self) -> ExpandedSpec {
        ExpandedSpec { measurements: self.measurements@, flipped: self.flipped }
    }
}

/// The values of a list of checks.
pub open spec fn port_view(list: Seq<ExpandedCheck>) -> Seq<ExpandedSpec> {
    list.map_values(|c: ExpandedCheck| c@)
}

/// The values of the lists of several ports.
pub open spec fn ports_view(lists: Seq<Vec<ExpandedCheck>>) -> Seq<Seq<ExpandedSpec>> {
    lists.map_values(|l: Vec<ExpandedCheck>| port_view(l@))
}

/// An open check that a measurement refers to exists.
pub open spec fn measurement_valid(m: JitMeasurement, inputs: Seq<Seq<ExpandedSpec>>) -> bool {
    m.input_port matches Some(p) ==> p < inputs.len() && m.measurement_index < inputs[p as int].len()
}

/// The open checks that a check refers to exist.
pub open spec fn check_valid(measurements: Seq<JitMeasurement>, inputs: Seq<Seq<ExpandedSpec>>) -> bool {
    forall|i: int| 0 <= i < measurements.len() ==> measurement_valid(#[trigger] measurements[i], inputs)
}

/// The first `n` measurements of a check of gadget `gid`, expanded: what occurs an even
/// number of times cancels.
pub open spec fn expand_upto(
    flipped: bool,
    measurements: Seq<JitMeasurement>,
    inputs: Seq<Seq<ExpandedSpec>>,
    gid: u64,
    n: int,
) -> ExpandedSpec
    decreases n,
{
    if n <= 0 {
        ExpandedSpec { measurements: Set::empty(), flipped }
    } else {
        let before = expand_upto(flipped, measurements, inputs, gid, n - 1);
        let m = measurements[n - 1];
        match m.input_port {
            None => ExpandedSpec {
                measurements: toggled_pair(before.measurements, (gid, m.measurement_index)),
                ..before
            },
            Some(p) => {
                let input = inputs[p as int][m.measurement_index as int];
                ExpandedSpec {
                    measurements: difference_of(before.measurements, input.measurements),
                    flipped: before.flipped != input.flipped,
                }
            },
        }
    }
}

/// A check of gadget `gid`, expanded.
pub open spec fn expanded_check(check: JitCheck, inputs: Seq<Seq<ExpandedSpec>>, gid: u64) -> ExpandedSpec {
    expand_upto(check.naturally_flipped, check.measurements@, inputs, gid, check.measurements@.len() as int)
}

/// Expands a check of gadget `gid`.
pub fn expand_check_measurements(check: &JitCheck, inputs: &Vec<Vec<ExpandedCheck>>, gid: u64) -> (expanded: ExpandedCheck)
    requires
        check_valid(check.measurements@, ports_view(inputs@)),
    ensures
        expanded@ == expanded_check(*check, ports_view(inputs@), gid),
{
    let mut expanded = ExpandedCheck { measurements: PairSet::new(), flipped: check.naturally_flipped };
    let ghost views = ports_view(inputs@);
    let mut n: usize = 0;
    while n < check.measurements.len()
        invariant
            n <= check.measurements@.len(),
            views == ports_view(inputs@),
            check_valid(check.measurements@, views),
            expanded@ =~= expand_upto(check.naturally_flipped, check.measurements@, views, gid, n as int),
        decreases check.measurements@.len() - n,
    {
        let m = check.measurements[n];
        assert(measurement_valid(check.measurements@[n as int], views));
        match m.input_port {
            None => {
                expanded.measurements.toggle((gid, m.measurement_index));
            },
            Some(p) => {
                assert(p < inputs.len());
                assert(views[p as int] == port_view(inputs@[p as int]@));
                let port = &inputs[p as usize];
                assert(m.measurement_index < port.len());
                let input = &port[m.measurement_index as usize];
                assert(views[p as int][m.measurement_index as int] == input@);
                expanded.flipped = expanded.flipped != input.flipped;
                expanded.measurements.toggle_all(&input.measurements);
            },
        }
        n += 1;
    }
    expanded
}

/// A measurement is in an expanded check exactly if an odd number of the measurements
/// and open checks of the check contribute it.
pub proof fn law_expansion_is_parity(
    flipped: bool,
    measurements: Seq<JitMeasurement>,
    inputs: Seq<Seq<ExpandedSpec>>,
    gid: u64,
    n: int,
    pair: (u64, u64),
)
    requires
        0 <= n <= measurements.len(),
    ensures
        expand_upto(flipped, measurements, inputs, gid, n).measurements.contains(pair) == contributed_oddly(
            measurements,
            inputs,
            gid,
            n,
            pair,
        ),
    decreases n,
{
    if n > 0 {
        law_expansion_is_parity(flipped, measurements, inputs, gid, n - 1, pair);
    }
}

proof fn lemma_expansion_counts(
    flipped: bool,
    measurements: Seq<JitMeasurement>,
    inputs: Seq<Seq<ExpandedSpec>>,
    gid: u64,
    n: int,
    pair: (u64, u64),
)
    requires
        0 <= n <= measurements.len(),
    ensures
        expand_upto(flipped, measurements, inputs, gid, n).measurements.contains(pair) == (measurements.take(n).filter(
            |m: JitMeasurement|
                match m.input_port {
                    None => pair == (gid, m.measurement_index),
                    Some(p) => inputs[p as int][m.measurement_index as int].measurements.contains(pair),
                },
        ).len() % 2 == 1),
        expand_upto(flipped, measurements, inputs, gid, n).flipped == (flipped != (measurements.take(n).filter(
            |m: JitMeasurement|
                m.input_port matches Some(p) && inputs[p as int][m.measurement_index as int].flipped,
        ).len() % 2 == 1)),
    decreases n,
{
    reveal(Seq::filter);
    if n > 0 {
        lemma_expansion_counts(flipped, measurements, inputs, gid, n - 1, pair);
        assert(measurements.take(n).drop_last() =~= measurements.take(n - 1));
        assert(measurements.take(n).last() == measurements[n - 1]);
    } else {
        assert(measurements.take(n) =~= Seq::<JitMeasurement>::empty());
    }
}

/// A measurement is in an expanded check exactly if an odd number of the entries of the
/// check bring it: the measurement itself, or an open check that holds it. The check is
/// naturally flipped if an odd number of flips come together.
pub proof fn law_expanded_check_counts_contributions(
    check: JitCheck,
    inputs: Seq<Seq<ExpandedSpec>>,
    gid: u64,
    pair: (u64, u64),
)
    ensures
        expanded_check(check, inputs, gid).measurements.contains(pair) == (check.measurements@.filter(
            |m: JitMeasurement|
                match m.input_port {
                    None => pair == (gid, m.measurement_index),
                    Some(p) => inputs[p as int][m.measurement_index as int].measurements.contains(pair),
                },
        ).len() % 2 == 1),
        expanded_check(check, inputs, gid).flipped == (check.naturally_flipped != (check.measurements@.filter(
            |m: JitMeasurement|
                m.input_port matches Some(p) && inputs[p as int][m.measurement_index as int].flipped,
        ).len() % 2 == 1)),
{
    lemma_expansion_counts(
        check.naturally_flipped,
        check.measurements@,
        inputs,
        gid,
        check.measurements@.len() as int,
        pair,
    );
    assert(check.measurements@.take(check.measurements@.len() as int) =~= check.measurements@);
}

/// Whether an odd number of the first `n` measurements and open checks contribute a
/// measurement.
pub open spec fn contributed_oddly(
    measurements: Seq<JitMeasurement>,
    inputs: Seq<Seq<ExpandedSpec>>,
    gid: u64,
    n: int,
    pair: (u64, u64),
) -> bool
    decreases n,
{
    if n <= 0 {
        false
    } else {
        let m = measurements[n - 1];
        contributed_oddly(measurements, inputs, gid, n - 1, pair) != (match m.input_port {
            None => pair == (gid, m.measurement_index),
            Some(p) => inputs[p as int][m.measurement_index as int].measurements.contains(pair),
        })
    }
}

// ---------------------------------------------------------------------------
// Checks of a check model
// ---------------------------------------------------------------------------

/// What a measurement of a check stands for.
pub open spec fn measured(m: RemoteMeasurement, remotes: Seq<RemoteGadget>, gid: u64) -> (u64, int) {
    match m.remote_gadget {
        None => (gid, m.measurement_index as int),
        Some(i) => (
            remotes[i as int].absolute_gid->0,
            m.measurement_index + remotes[i as int].measurement_bias,
        ),
    }
}

/// A measurement refers to a remote gadget that is listed by its id.
pub open spec fn measurement_resolves(m: RemoteMeasurement, remotes: Seq<RemoteGadget>) -> bool {
    m.remote_gadget matches Some(i) ==> i < remotes.len() && remotes[i as int].absolute_gid is Some
}

/// A pair is a member of a set of machine pairs.
pub open spec fn is_member(pair: (u64, int), set: Set<(u64, u64)>) -> bool {
    0 <= pair.1 <= u64::MAX && set.contains((pair.0, pair.1 as u64))
}

/// The measurements of a check stand for exactly the given ones.
pub open spec fn measures(list: Seq<RemoteMeasurement>, remotes: Seq<RemoteGadget>, gid: u64, set: Set<(u64, u64)>) -> bool {
    &&& forall|k: int| 0 <= k < list.len() ==> measurement_resolves(#[trigger] list[k], remotes)
    &&& forall|k: int| 0 <= k < list.len() ==> is_member(#[trigger] measured(list[k], remotes, gid), set)
    &&& forall|p: (u64, u64)| #[trigger]
        set.contains(p) ==> exists|k: int| 0 <= k < list.len() && #[trigger] measured(list[k], remotes, gid) == (p.0, p.1 as int)
}

/// The measurement that a reference makes.
pub open spec fn measurement_of(r: RemoteRef) -> RemoteMeasurement {
    RemoteMeasurement { remote_gadget: r.remote, measurement_index: r.index }
}

/// The remote gadget of number `i`.
pub open spec fn remote_gadget_of(id: u64, gtype: u64, bias: u64) -> RemoteGadget {
    RemoteGadget {
        port: None,
        previous_remote_gadget: None,
        absolute_gid: Some(id),
        expecting_gtype: gtype,
        measurement_bias: bias,
    }
}

/// The remote gadgets of numbered remotes.
pub open spec fn are_remote_gadgets(remotes: Seq<RemoteGadget>, ids: Seq<u64>, minima: Seq<u64>, gtypes: spec_fn(u64) -> u64) -> bool {
    &&& remotes.len() == ids.len()
    &&& forall|i: int| 0 <= i < ids.len() ==> #[trigger] remotes[i] == remote_gadget_of(ids[i], gtypes(ids[i]), minima[i])
}

/// References, counted from the biases of their remotes, stand for what they stood for.
pub proof fn lemma_unbiased_measures(
    refs: Seq<RemoteRef>,
    ids: Seq<u64>,
    minima: Seq<u64>,
    remotes: Seq<RemoteGadget>,
    gtypes: spec_fn(u64) -> u64,
    gid: u64,
    set: Set<(u64, u64)>,
)
    requires
        minima.len() == ids.len(),
        forall|k: int| 0 <= k < refs.len() ==> ref_valid(#[trigger] refs[k], ids, minima),
        refs_stand_for(refs, ids, gid, set),
        are_remote_gadgets(remotes, ids, minima, gtypes),
    ensures
        measures(refs.map_values(|r: RemoteRef| measurement_of(unbiased(r, minima))), remotes, gid, set),
{
    let list = refs.map_values(|r: RemoteRef| measurement_of(unbiased(r, minima)));
    assert forall|k: int| 0 <= k < list.len() implies measurement_resolves(#[trigger] list[k], remotes) && measured(
        list[k],
        remotes,
        gid,
    ) == (explicit(refs[k], ids, gid).0, explicit(refs[k], ids, gid).1 as int) by {
        assert(ref_valid(refs[k], ids, minima));
        if let Some(i) = refs[k].remote {
            assert(remotes[i as int] == remote_gadget_of(ids[i as int], gtypes(ids[i as int]), minima[i as int]));
        }
    }
    assert forall|k: int| 0 <= k < list.len() implies is_member(#[trigger] measured(list[k], remotes, gid), set) by {
        assert(measurement_resolves(list[k], remotes));
        assert(set.contains(explicit(refs[k], ids, gid)));
    }
    assert forall|p: (u64, u64)| #[trigger] set.contains(p) implies exists|k: int|
        0 <= k < list.len() && #[trigger] measured(list[k], remotes, gid) == (p.0, p.1 as int) by {
        let k = choose|k: int| 0 <= k < refs.len() && #[trigger] explicit(refs[k], ids, gid) == p;
        assert(measurement_resolves(list[k], remotes));
        assert(measured(list[k], remotes, gid) == (p.0, p.1 as int));
    }
}

} // verus!
