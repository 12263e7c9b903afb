//! Remote references: how a check model reaches other gadgets, and an error model
//! other check models.
//!
//! A reference is a slot. It names its target outright, or one port of the gadget
//! that another slot (or the owner itself) stands for.
use crate::bin::{
    CheckModelModifier, Connector, ErrorModelModifier, Port, RemoteCheckModel, RemoteGadget, RerouteRemoteCheckModel,
    RerouteRemoteGadget,
};
use crate::collections::IdSet;
use crate::network::{hop, Gadget, Hop};
use crate::registry::Registry;
use vstd::prelude::*;

verus! {

// ---------------------------------------------------------------------------
// Overrides
// ---------------------------------------------------------------------------

/// A slot list, extended by removed slots so that it has a slot `index`.
pub open spec fn grown<T>(slots: Seq<Option<T>>, index: int) -> Seq<Option<T>> {
    if index < slots.len() {
        slots
    } else {
        slots + Seq::new((index + 1 - slots.len()) as nat, |i: int| None)
    }
}

/// The slots of a check model type after the first `n` overrides.
pub open spec fn rerouted_gadgets(base: Seq<RemoteGadget>, reroutes: Seq<RerouteRemoteGadget>, n: int) -> Seq<
    Option<RemoteGadget>,
>
    decreases n,
{
    if n <= 0 {
        base.map_values(|r: RemoteGadget| Some(r))
    } else {
        let r = reroutes[n - 1];
        grown(rerouted_gadgets(base, reroutes, n - 1), r.remote_gadget_index as int).update(
            r.remote_gadget_index as int,
            r.value,
        )
    }
}

/// The slots of an error model type after the first `n` overrides.
pub open spec fn rerouted_check_models(base: Seq<RemoteCheckModel>, reroutes: Seq<RerouteRemoteCheckModel>, n: int) -> Seq<
    Option<RemoteCheckModel>,
>
    decreases n,
{
    if n <= 0 {
        base.map_values(|r: RemoteCheckModel| Some(r))
    } else {
        let r = reroutes[n - 1];
        grown(rerouted_check_models(base, reroutes, n - 1), r.remote_check_model_index as int).update(
            r.remote_check_model_index as int,
            r.value,
        )
    }
}

/// The slots of a check model instance.
pub open spec fn modified_gadgets_spec(base: Seq<RemoteGadget>, modifier: Option<CheckModelModifier>) -> Seq<
    Option<RemoteGadget>,
> {
    match modifier {
        Some(m) => rerouted_gadgets(base, m.reroute_remote_gadgets@, m.reroute_remote_gadgets@.len() as int),
        None => base.map_values(|r: RemoteGadget| Some(r)),
    }
}

/// The slots of an error model instance.
pub open spec fn modified_check_models_spec(base: Seq<RemoteCheckModel>, modifier: Option<ErrorModelModifier>) -> Seq<
    Option<RemoteCheckModel>,
> {
    match modifier {
        Some(m) => rerouted_check_models(
            base,
            m.reroute_remote_check_models@,
            m.reroute_remote_check_models@.len() as int,
        ),
        None => base.map_values(|r: RemoteCheckModel| Some(r)),
    }
}

/// Writes a slot, growing the list where it has no such slot.
fn write_slot<T: Copy>(slots: &mut Vec<Option<T>>, index: usize, value: Option<T>)
    requires
        index < usize::MAX,
    ensures
        final(slots)@ == grown(old(slots)@, index as int).update(index as int, value),
{
    while index >= slots.len()
        invariant
            index < usize::MAX,
            slots@ =~= old(slots)@ + Seq::new((slots@.len() - old(slots)@.len()) as nat, |i: int| None::<T>),
            old(slots)@.len() <= slots@.len(),
            index < old(slots)@.len() ==> slots@ == old(slots)@,
            slots@.len() <= old(slots)@.len() || slots@.len() <= index + 1,
        decreases index + 1 - slots@.len(),
    {
        slots.push(None);
    }
    assert(slots@ =~= grown(old(slots)@, index as int));
    slots.set(index, value);
}

/// Applies the overrides of a check model instance to the slots of its type.
pub fn modified_remote_gadgets(base: &Vec<RemoteGadget>, modifier: &Option<CheckModelModifier>) -> (slots: Vec<
    Option<RemoteGadget>,
>)
    requires
        modifier matches Some(m) ==> forall|i: int|
            0 <= i < m.reroute_remote_gadgets@.len() ==> (#[trigger] m.reroute_remote_gadgets@[i]).remote_gadget_index
                < usize::MAX,
    ensures
        slots@ == modified_gadgets_spec(base@, *modifier),
{
    let mut slots: Vec<Option<RemoteGadget>> = Vec::new();
    let mut i: usize = 0;
    while i < base.len()
        invariant
            i <= base@.len(),
            slots@ =~= base@.map_values(|r: RemoteGadget| Some(r)).take(i as int),
        decreases base@.len() - i,
    {
        slots.push(Some(base[i]));
        i += 1;
    }
    assert(slots@ =~= base@.map_values(|r: RemoteGadget| Some(r)));
    if let Some(m) = modifier {
        let mut n: usize = 0;
        while n < m.reroute_remote_gadgets.len()
            invariant
                n <= m.reroute_remote_gadgets@.len(),
                forall|i: int|
                    0 <= i < m.reroute_remote_gadgets@.len() ==> (#[trigger] m.reroute_remote_gadgets@[i]).remote_gadget_index
                        < usize::MAX,
                slots@ == rerouted_gadgets(base@, m.reroute_remote_gadgets@, n as int),
            decreases m.reroute_remote_gadgets@.len() - n,
        {
            let reroute = m.reroute_remote_gadgets[n];
            write_slot(&mut slots, reroute.remote_gadget_index as usize, reroute.value);
            n += 1;
        }
    }
    slots
}

/// Applies the overrides of an error model instance to the slots of its type.
pub fn modified_remote_check_models(base: &Vec<RemoteCheckModel>, modifier: &Option<ErrorModelModifier>) -> (slots: Vec<
    Option<RemoteCheckModel>,
>)
    requires
        modifier matches Some(m) ==> forall|i: int|
            0 <= i < m.reroute_remote_check_models@.len() ==> (#[trigger] m.reroute_remote_check_models@[i]).remote_check_model_index
                < usize::MAX,
    ensures
        slots@ == modified_check_models_spec(base@, *modifier),
{
    let mut slots: Vec<Option<RemoteCheckModel>> = Vec::new();
    let mut i: usize = 0;
    while i < base.len()
        invariant
            i <= base@.len(),
            slots@ =~= base@.map_values(|r: RemoteCheckModel| Some(r)).take(i as int),
        decreases base@.len() - i,
    {
        slots.push(Some(base[i]));
        i += 1;
    }
    assert(slots@ =~= base@.map_values(|r: RemoteCheckModel| Some(r)));
    if let Some(m) = modifier {
        let mut n: usize = 0;
        while n < m.reroute_remote_check_models.len()
            invariant
                n <= m.reroute_remote_check_models@.len(),
                forall|i: int|
                    0 <= i < m.reroute_remote_check_models@.len() ==> (#[trigger] m.reroute_remote_check_models@[i]).remote_check_model_index
                        < usize::MAX,
                slots@ == rerouted_check_models(base@, m.reroute_remote_check_models@, n as int),
            decreases m.reroute_remote_check_models@.len() - n,
        {
            let reroute = m.reroute_remote_check_models[n];
            write_slot(&mut slots, reroute.remote_check_model_index as usize, reroute.value);
            n += 1;
        }
    }
    slots
}

/// Overriding a slot leaves every other slot of the type as it is.
pub proof fn law_reroute_touches_named_slots_only(
    base: Seq<RemoteCheckModel>,
    reroutes: Seq<RerouteRemoteCheckModel>,
    n: int,
    slot: int,
)
    requires
        0 <= n <= reroutes.len(),
        0 <= slot < base.len(),
        forall|k: int| 0 <= k < n ==> (#[trigger] reroutes[k]).remote_check_model_index != slot,
    ensures
        rerouted_check_models(base, reroutes, n).len() >= base.len(),
        rerouted_check_models(base, reroutes, n)[slot] == Some(base[slot]),
    decreases n,
{
    if n > 0 {
        law_reroute_touches_named_slots_only(base, reroutes, n - 1, slot);
    }
}

// ---------------------------------------------------------------------------
// Following references
// ---------------------------------------------------------------------------

/// What a slot stands for.
#[derive(Debug, Clone, Copy, PartialEq, Eq, Structural)]
pub enum Target {
    /// a gadget, or the check model bound to it
    Gadget(u64),
    /// a check model that is named outright
    CheckModel(u64),
}

/// A reference.
#[derive(Debug, Clone, Copy, PartialEq, Eq, Structural)]
pub enum Slot {
    /// the target is named outright
    Known(Target),
    /// a port of the gadget that another slot, or the owner, stands for
    Via { previous: Option<u64>, port: Option<Port> },
}

/// Where a slot leads in a network.
#[derive(Debug, Clone, Copy, PartialEq, Eq, Structural)]
pub enum Reach {
    /// nowhere: the slot was removed
    Removed,
    /// to this target
    To(Target),
    /// to an output port that is not connected yet
    Open(Connector),
    /// the reference is invalid
    Fault,
}

/// The reference that a remote gadget makes.
pub open spec fn gadget_slot(r: RemoteGadget) -> Slot {
    match r.absolute_gid {
        Some(gid) => Slot::Known(Target::Gadget(gid)),
        None => Slot::Via { previous: r.previous_remote_gadget, port: r.port },
    }
}

/// The reference that a remote check model makes.
pub open spec fn check_model_slot(r: RemoteCheckModel) -> Slot {
    match r.absolute_cid {
        Some(cid) => Slot::Known(Target::CheckModel(cid)),
        None => Slot::Via { previous: r.previous_remote_check_model, port: r.port },
    }
}

/// The references of a list of remote gadgets.
pub open spec fn gadget_slots(slots: Seq<Option<RemoteGadget>>) -> Seq<Option<Slot>> {
    slots.map_values(
        |s: Option<RemoteGadget>|
            match s {
                Some(r) => Some(gadget_slot(r)),
                None => None,
            },
    )
}

/// The references of a list of remote check models.
pub open spec fn check_model_slots(slots: Seq<Option<RemoteCheckModel>>) -> Seq<Option<Slot>> {
    slots.map_values(
        |s: Option<RemoteCheckModel>|
            match s {
                Some(r) => Some(check_model_slot(r)),
                None => None,
            },
    )
}

/// Where port `port` of gadget `from` leads.
pub open spec fn reach_port(gadgets: Map<u64, Gadget>, from: u64, port: Option<Port>) -> Reach {
    match port {
        Some(p) => match hop(gadgets, from, p) {
            Hop::At(gid) => Reach::To(Target::Gadget(gid)),
            Hop::Open => Reach::Open(
                Connector {
                    gid: from,
                    port: match p {
                        Port::Output(n) => n,
                        Port::Input(n) => n,
                    },
                },
            ),
            Hop::Fault => Reach::Fault,
        },
        None => Reach::Fault,
    }
}

/// Where slot `ri` leads, following at most `fuel` references. A longer chain comes
/// back to a slot that it already went through.
pub open spec fn reach(gadgets: Map<u64, Gadget>, slots: Seq<Option<Slot>>, owner: u64, ri: int, fuel: nat) -> Reach
    decreases fuel,
{
    if fuel == 0 || ri < 0 || ri >= slots.len() {
        Reach::Fault
    } else {
        match slots[ri] {
            None => Reach::Removed,
            Some(Slot::Known(target)) => Reach::To(target),
            Some(Slot::Via { previous: None, port }) => reach_port(gadgets, owner, port),
            Some(Slot::Via { previous: Some(p), port }) => match reach(
                gadgets,
                slots,
                owner,
                p as int,
                (fuel - 1) as nat,
            ) {
                Reach::To(Target::Gadget(gid)) => reach_port(gadgets, gid, port),
                Reach::Open(c) => Reach::Open(c),
                _ => Reach::Fault,
            },
        }
    }
}

/// Where slot `ri` leads.
pub open spec fn reach_of(gadgets: Map<u64, Gadget>, slots: Seq<Option<Slot>>, owner: u64, ri: int) -> Reach {
    reach(gadgets, slots, owner, ri, slots.len())
}

/// More fuel finds the same target.
pub proof fn lemma_reach_fuel(gadgets: Map<u64, Gadget>, slots: Seq<Option<Slot>>, owner: u64, ri: int, a: nat, b: nat)
    requires
        a <= b,
        !(reach(gadgets, slots, owner, ri, a) is Fault),
    ensures
        reach(gadgets, slots, owner, ri, b) == reach(gadgets, slots, owner, ri, a),
    decreases a,
{
    if let Some(Slot::Via { previous: Some(p), port }) = slots[ri] {
        lemma_reach_fuel(gadgets, slots, owner, p as int, (a - 1) as nat, (b - 1) as nat);
    }
}

/// One network extends another: no gadget is lost, no input changes, and no
/// connected output is disconnected or rerouted.
pub open spec fn extends(later: Map<u64, Gadget>, earlier: Map<u64, Gadget>) -> bool {
    forall|gid: u64| #[trigger]
        earlier.contains_key(gid) ==> {
            &&& later.contains_key(gid)
            &&& later[gid].instance.connectors@ == earlier[gid].instance.connectors@
            &&& later[gid].outputs@.len() == earlier[gid].outputs@.len()
            &&& forall|p: int|
                0 <= p < earlier[gid].outputs@.len() && earlier[gid].outputs@[p] is Some ==> later[gid].outputs@[p]
                    == earlier[gid].outputs@[p]
        }
}

/// A reference that is resolved stays resolved to the same target while the program
/// grows.
pub proof fn law_resolved_reference_is_stable(
    earlier: Map<u64, Gadget>,
    later: Map<u64, Gadget>,
    slots: Seq<Option<Slot>>,
    owner: u64,
    ri: int,
    fuel: nat,
)
    requires
        extends(later, earlier),
        reach(earlier, slots, owner, ri, fuel) is To || reach(earlier, slots, owner, ri, fuel) is Removed,
    ensures
        reach(later, slots, owner, ri, fuel) == reach(earlier, slots, owner, ri, fuel),
    decreases fuel,
{
    if let Some(Slot::Via { previous: Some(p), port }) = slots[ri] {
        law_resolved_reference_is_stable(earlier, later, slots, owner, p as int, (fuel - 1) as nat);
    }
}

/// The reference that a remote gadget makes.
fn gadget_slot_of(r: &RemoteGadget) -> (slot: Slot)
    ensures
        slot == gadget_slot(*r),
{
    match r.absolute_gid {
        Some(gid) => Slot::Known(Target::Gadget(gid)),
        None => Slot::Via { previous: r.previous_remote_gadget, port: r.port },
    }
}

/// The references of a list of remote gadgets.
pub fn gadget_slots_of(list: &Vec<Option<RemoteGadget>>) -> (slots: Vec<Option<Slot>>)
    ensures
        slots@ == gadget_slots(list@),
{
    let mut slots: Vec<Option<Slot>> = Vec::new();
    let mut i: usize = 0;
    while i < list.len()
        invariant
            i <= list@.len(),
            slots@ =~= gadget_slots(list@).take(i as int),
        decreases list@.len() - i,
    {
        let slot = match &list[i] {
            Some(r) => Some(gadget_slot_of(r)),
            None => None,
        };
        slots.push(slot);
        i += 1;
    }
    slots
}

/// The references of a list of remote check models.
pub fn check_model_slots_of(list: &Vec<Option<RemoteCheckModel>>) -> (slots: Vec<Option<Slot>>)
    ensures
        slots@ == check_model_slots(list@),
{
    let mut slots: Vec<Option<Slot>> = Vec::new();
    let mut i: usize = 0;
    while i < list.len()
        invariant
            i <= list@.len(),
            slots@ =~= check_model_slots(list@).take(i as int),
        decreases list@.len() - i,
    {
        let slot = match &list[i] {
            Some(r) => match r.absolute_cid {
                Some(cid) => Some(Slot::Known(Target::CheckModel(cid))),
                None => Some(Slot::Via { previous: r.previous_remote_check_model, port: r.port }),
            },
            None => None,
        };
        slots.push(slot);
        i += 1;
    }
    slots
}

/// Follows one slot.
fn follow_slot(gadgets: &Registry<Gadget>, slots: &Vec<Option<Slot>>, owner: u64, ri: usize, fuel: usize) -> (found: Reach)
    requires
        gadgets.wf(),
    ensures
        found == reach(gadgets@, slots@, owner, ri as int, fuel as nat),
    decreases fuel,
{
    if fuel == 0 || ri >= slots.len() {
        return Reach::Fault;
    }
    match slots[ri] {
        None => Reach::Removed,
        Some(Slot::Known(target)) => Reach::To(target),
        Some(Slot::Via { previous, port }) => {
            let from: u64 = match previous {
                None => owner,
                Some(p) => {
                    if p >= slots.len() as u64 {
                        assert(reach(gadgets@, slots@, owner, p as int, (fuel - 1) as nat) is Fault);
                        return Reach::Fault;
                    }
                    match follow_slot(gadgets, slots, owner, p as usize, fuel - 1) {
                        Reach::To(Target::Gadget(gid)) => gid,
                        Reach::Open(c) => {
                            return Reach::Open(c);
                        },
                        _ => {
                            return Reach::Fault;
                        },
                    }
                },
            };
            follow_any_port(gadgets, from, port)
        },
    }
}

/// Follows a port of any gadget, known or not.
fn follow_any_port(gadgets: &Registry<Gadget>, from: u64, port: Option<Port>) -> (found: Reach)
    requires
        gadgets.wf(),
    ensures
        found == reach_port(gadgets@, from, port),
{
    let Some(port) = port else {
        return Reach::Fault;
    };
    let Some(gadget) = gadgets.get(from) else {
        return Reach::Fault;
    };
    match port {
        Port::Output(p) => {
            if p >= gadget.outputs.len() as u64 {
                return Reach::Fault;
            }
            match gadget.outputs[p as usize] {
                Some(c) => Reach::To(Target::Gadget(c.gid)),
                None => Reach::Open(Connector { gid: from, port: p }),
            }
        },
        Port::Input(p) => {
            if p >= gadget.instance.connectors.len() as u64 {
                return Reach::Fault;
            }
            Reach::To(Target::Gadget(gadget.instance.connectors[p as usize].gid))
        },
    }
}

/// Why a batch of references is not resolved.
#[derive(Debug, Clone, Copy, PartialEq, Eq, Structural)]
pub enum Unresolved {
    /// an output port is not connected yet
    Port(Connector),
    /// a gadget has no check model yet
    Binding(u64),
    /// this slot is invalid
    Invalid(u64),
}

/// Whether following a slot stops before a target.
pub open spec fn stops(found: Reach) -> bool {
    found is Open || found is Fault
}

/// The first slot at which following the slots in order stops.
pub open spec fn first_stop(gadgets: Map<u64, Gadget>, slots: Seq<Option<Slot>>, owner: u64, ri: int) -> bool {
    &&& 0 <= ri < slots.len()
    &&& stops(reach_of(gadgets, slots, owner, ri))
    &&& forall|k: int| 0 <= k < ri ==> !stops(#[trigger] reach_of(gadgets, slots, owner, k))
}

/// What is reported for a slot at which following the slots stops.
pub open spec fn stop_at(found: Reach, ri: int) -> Unresolved {
    match found {
        Reach::Open(c) => Unresolved::Port(c),
        _ => Unresolved::Invalid(ri as u64),
    }
}

/// What a check model's remote gadgets resolve to, or what stops the first of them.
pub open spec fn expands_gadgets(
    gadgets: Map<u64, Gadget>,
    slots: Seq<Option<Slot>>,
    owner: u64,
    expanded: Result<Seq<Option<u64>>, Unresolved>,
) -> bool {
    match expanded {
        Ok(gids) => {
            &&& gids.len() == slots.len()
            &&& forall|ri: int|
                0 <= ri < slots.len() ==> (#[trigger] reach_of(gadgets, slots, owner, ri)) == (match gids[ri] {
                    Some(g) => Reach::To(Target::Gadget(g)),
                    None => Reach::Removed,
                })
        },
        Err(why) => exists|ri: int| #[trigger]
            first_stop(gadgets, slots, owner, ri) && why == stop_at(reach_of(gadgets, slots, owner, ri), ri),
    }
}

/// A result of a batch, with lists by their contents.
pub open spec fn batch_view(expanded: Result<Vec<Option<u64>>, Unresolved>) -> Result<Seq<Option<u64>>, Unresolved> {
    match expanded {
        Ok(ids) => Ok(ids@),
        Err(why) => Err(why),
    }
}

/// Resolves the remote gadgets of a check model of gadget `gid`, or says what stops
/// the first one that is not resolved.
pub fn expand_remote_gadgets(gadgets: &Registry<Gadget>, remote_gadgets: &Vec<Option<RemoteGadget>>, gid: u64) -> (expanded:
    Result<Vec<Option<u64>>, Unresolved>)
    requires
        gadgets.wf(),
    ensures
        expands_gadgets(gadgets@, gadget_slots(remote_gadgets@), gid, batch_view(expanded)),
{
    let slots = gadget_slots_of(remote_gadgets);
    let mut gids: Vec<Option<u64>> = Vec::new();
    let mut ri: usize = 0;
    while ri < slots.len()
        invariant
            gadgets.wf(),
            slots@ == gadget_slots(remote_gadgets@),
            ri <= slots@.len(),
            gids@.len() == ri,
            forall|k: int|
                0 <= k < ri ==> (#[trigger] reach_of(gadgets@, slots@, gid, k)) == (match gids@[k] {
                    Some(g) => Reach::To(Target::Gadget(g)),
                    None => Reach::Removed,
                }),
        decreases slots@.len() - ri,
    {
        let found = follow_slot(gadgets, &slots, gid, ri, slots.len());
        assert(found == reach_of(gadgets@, slots@, gid, ri as int));
        match found {
            Reach::To(Target::Gadget(g)) => {
                gids.push(Some(g));
            },
            Reach::To(Target::CheckModel(_)) => {
                proof {
                    lemma_gadget_slots_reach_gadgets(gadgets@, remote_gadgets@, gid, ri as int, slots@.len());
                }
                gids.push(None);
            },
            Reach::Removed => {
                gids.push(None);
            },
            Reach::Open(c) => {
                assert(first_stop(gadgets@, slots@, gid, ri as int));
                return Err(Unresolved::Port(c));
            },
            Reach::Fault => {
                assert(first_stop(gadgets@, slots@, gid, ri as int));
                return Err(Unresolved::Invalid(ri as u64));
            },
        }
        ri += 1;
    }
    Ok(gids)
}

proof fn lemma_gadget_slots_reach_gadgets(
    gadgets: Map<u64, Gadget>,
    remote_gadgets: Seq<Option<RemoteGadget>>,
    owner: u64,
    ri: int,
    fuel: nat,
)
    ensures
        !(reach(gadgets, gadget_slots(remote_gadgets), owner, ri, fuel) matches Reach::To(Target::CheckModel(_))),
{
}

/// What check model a slot of an error model stands for.
pub open spec fn check_model_of(gadgets: Map<u64, Gadget>, target: Target) -> Option<u64> {
    match target {
        Target::CheckModel(cid) => Some(cid),
        Target::Gadget(gid) => gadgets[gid].binding_cid,
    }
}

/// Whether slot `ri` leads to a gadget that does not exist or has no check model.
pub open spec fn lacks_binding(gadgets: Map<u64, Gadget>, slots: Seq<Option<Slot>>, owner: u64, ri: int) -> bool {
    reach_of(gadgets, slots, owner, ri) matches Reach::To(Target::Gadget(gid)) && (!gadgets.contains_key(gid)
        || gadgets[gid].binding_cid is None)
}

/// The first slot without a check model.
pub open spec fn first_lacking(gadgets: Map<u64, Gadget>, slots: Seq<Option<Slot>>, owner: u64, ri: int) -> bool {
    &&& 0 <= ri < slots.len()
    &&& lacks_binding(gadgets, slots, owner, ri)
    &&& forall|k: int| 0 <= k < ri ==> !#[trigger] lacks_binding(gadgets, slots, owner, k)
}

/// What is reported for a slot without a check model.
pub open spec fn lack_at(gadgets: Map<u64, Gadget>, found: Reach, ri: int) -> Unresolved {
    match found {
        Reach::To(Target::Gadget(gid)) => if gadgets.contains_key(gid) {
            Unresolved::Binding(gid)
        } else {
            Unresolved::Invalid(ri as u64)
        },
        _ => Unresolved::Invalid(ri as u64),
    }
}

/// What an error model's slots resolve to: their check models, or what stops the
/// first of them. Slots are followed to their gadgets before any binding is looked at.
pub open spec fn expands_check_models(
    gadgets: Map<u64, Gadget>,
    slots: Seq<Option<Slot>>,
    owner: u64,
    expanded: Result<Seq<Option<u64>>, Unresolved>,
) -> bool {
    match expanded {
        Ok(cids) => {
            &&& cids.len() == slots.len()
            &&& forall|ri: int|
                0 <= ri < slots.len() ==> match #[trigger] reach_of(gadgets, slots, owner, ri) {
                    Reach::Removed => cids[ri] is None,
                    Reach::To(target) => cids[ri] is Some && cids[ri] == check_model_of(gadgets, target),
                    _ => false,
                }
        },
        Err(why) => {
            ||| exists|ri: int| #[trigger]
                first_stop(gadgets, slots, owner, ri) && why == stop_at(reach_of(gadgets, slots, owner, ri), ri)
            ||| {
                &&& forall|k: int| 0 <= k < slots.len() ==> !stops(#[trigger] reach_of(gadgets, slots, owner, k))
                &&& exists|ri: int| #[trigger]
                    first_lacking(gadgets, slots, owner, ri) && why == lack_at(
                        gadgets,
                        reach_of(gadgets, slots, owner, ri),
                        ri,
                    )
            }
        },
    }
}

/// Resolves the remote check models of an error model of gadget `gid`, or says what
/// stops the first one that is not resolved.
pub fn expand_remote_check_models(
    gadgets: &Registry<Gadget>,
    remote_check_models: &Vec<Option<RemoteCheckModel>>,
    gid: u64,
) -> (expanded: Result<Vec<Option<u64>>, Unresolved>)
    requires
        gadgets.wf(),
    ensures
        expands_check_models(gadgets@, check_model_slots(remote_check_models@), gid, batch_view(expanded)),
{
    let slots = check_model_slots_of(remote_check_models);
    let mut found: Vec<Reach> = Vec::new();
    let mut ri: usize = 0;
    while ri < slots.len()
        invariant
            gadgets.wf(),
            slots@ == check_model_slots(remote_check_models@),
            ri <= slots@.len(),
            found@.len() == ri,
            forall|k: int| 0 <= k < ri ==> found@[k] == #[trigger] reach_of(gadgets@, slots@, gid, k),
            forall|k: int| 0 <= k < ri ==> !stops(#[trigger] reach_of(gadgets@, slots@, gid, k)),
        decreases slots@.len() - ri,
    {
        let r = follow_slot(gadgets, &slots, gid, ri, slots.len());
        assert(r == reach_of(gadgets@, slots@, gid, ri as int));
        match r {
            Reach::Open(c) => {
                assert(first_stop(gadgets@, slots@, gid, ri as int));
                return Err(Unresolved::Port(c));
            },
            Reach::Fault => {
                assert(first_stop(gadgets@, slots@, gid, ri as int));
                return Err(Unresolved::Invalid(ri as u64));
            },
            _ => {},
        }
        found.push(r);
        ri += 1;
    }
    let mut cids: Vec<Option<u64>> = Vec::new();
    let mut ri: usize = 0;
    while ri < found.len()
        invariant
            gadgets.wf(),
            slots@ == check_model_slots(remote_check_models@),
            ri <= slots@.len(),
            found@.len() == slots@.len(),
            cids@.len() == ri,
            forall|k: int| 0 <= k < slots@.len() ==> found@[k] == #[trigger] reach_of(gadgets@, slots@, gid, k),
            forall|k: int| 0 <= k < slots@.len() ==> !stops(#[trigger] reach_of(gadgets@, slots@, gid, k)),
            forall|k: int| 0 <= k < ri ==> !#[trigger] lacks_binding(gadgets@, slots@, gid, k),
            forall|k: int|
                0 <= k < ri ==> match #[trigger] reach_of(gadgets@, slots@, gid, k) {
                    Reach::Removed => cids@[k] is None,
                    Reach::To(target) => cids@[k] is Some && cids@[k] == check_model_of(gadgets@, target),
                    _ => false,
                },
        decreases slots@.len() - ri,
    {
        assert(found@[ri as int] == reach_of(gadgets@, slots@, gid, ri as int));
        match found[ri] {
            Reach::To(Target::CheckModel(cid)) => {
                cids.push(Some(cid));
            },
            Reach::To(Target::Gadget(g)) => {
                let binding = match gadgets.get(g) {
                    Some(gadget) => gadget.binding_cid,
                    None => {
                        assert(first_lacking(gadgets@, slots@, gid, ri as int));
                        return Err(Unresolved::Invalid(ri as u64));
                    },
                };
                match binding {
                    Some(cid) => {
                        cids.push(Some(cid));
                    },
                    None => {
                        assert(first_lacking(gadgets@, slots@, gid, ri as int));
                        return Err(Unresolved::Binding(g));
                    },
                }
            },
            _ => {
                cids.push(None);
            },
        }
        ri += 1;
    }
    Ok(cids)
}

// ---------------------------------------------------------------------------
// Following references inside a window
// ---------------------------------------------------------------------------

/// Where a slot leads inside a window.
#[derive(Debug, Clone, Copy, PartialEq, Eq, Structural)]
pub enum WindowReach {
    /// nowhere: the slot was removed
    Removed,
    /// to this target
    To(Target),
    /// out of the window, or to a port that is not connected
    Outside,
    /// the reference is invalid
    Fault,
}

/// Where a port leads inside a window.
pub open spec fn window_port(gadgets: Map<u64, Gadget>, window: Set<u64>, from: u64, port: Option<Port>) -> WindowReach {
    match reach_port(gadgets, from, port) {
        Reach::To(Target::Gadget(gid)) => if window.contains(gid) {
            WindowReach::To(Target::Gadget(gid))
        } else {
            WindowReach::Outside
        },
        Reach::Open(_) => WindowReach::Outside,
        _ => WindowReach::Fault,
    }
}

/// Where slot `ri` leads inside a window. A reference that leaves the window stays
/// outside, even where a later port would come back.
pub open spec fn window_reach(
    gadgets: Map<u64, Gadget>,
    window: Set<u64>,
    slots: Seq<Option<Slot>>,
    owner: u64,
    ri: int,
    fuel: nat,
) -> WindowReach
    decreases fuel,
{
    if fuel == 0 || ri < 0 || ri >= slots.len() {
        WindowReach::Fault
    } else {
        match slots[ri] {
            None => WindowReach::Removed,
            Some(Slot::Known(target)) => WindowReach::To(target),
            Some(Slot::Via { previous: None, port }) => window_port(gadgets, window, owner, port),
            Some(Slot::Via { previous: Some(p), port }) => match window_reach(
                gadgets,
                window,
                slots,
                owner,
                p as int,
                (fuel - 1) as nat,
            ) {
                WindowReach::To(Target::Gadget(gid)) => window_port(gadgets, window, gid, port),
                WindowReach::Outside => WindowReach::Outside,
                _ => WindowReach::Fault,
            },
        }
    }
}

/// Where slot `ri` leads inside a window.
pub open spec fn window_reach_of(
    gadgets: Map<u64, Gadget>,
    window: Set<u64>,
    slots: Seq<Option<Slot>>,
    owner: u64,
    ri: int,
) -> WindowReach {
    window_reach(gadgets, window, slots, owner, ri, slots.len())
}

/// Follows one slot inside a window.
fn follow_slot_in_window(
    gadgets: &Registry<Gadget>,
    window: &IdSet,
    slots: &Vec<Option<Slot>>,
    owner: u64,
    ri: usize,
    fuel: usize,
) -> (found: WindowReach)
    requires
        gadgets.wf(),
    ensures
        found == window_reach(gadgets@, window@, slots@, owner, ri as int, fuel as nat),
    decreases fuel,
{
    if fuel == 0 || ri >= slots.len() {
        return WindowReach::Fault;
    }
    match slots[ri] {
        None => WindowReach::Removed,
        Some(Slot::Known(target)) => WindowReach::To(target),
        Some(Slot::Via { previous, port }) => {
            let from: u64 = match previous {
                None => owner,
                Some(p) => {
                    if p >= slots.len() as u64 {
                        assert(window_reach(gadgets@, window@, slots@, owner, p as int, (fuel - 1) as nat) is Fault);
                        return WindowReach::Fault;
                    }
                    match follow_slot_in_window(gadgets, window, slots, owner, p as usize, fuel - 1) {
                        WindowReach::To(Target::Gadget(gid)) => gid,
                        WindowReach::Outside => {
                            return WindowReach::Outside;
                        },
                        _ => {
                            return WindowReach::Fault;
                        },
                    }
                },
            };
            match follow_any_port(gadgets, from, port) {
                Reach::To(Target::Gadget(gid)) => if window.contains(gid) {
                    WindowReach::To(Target::Gadget(gid))
                } else {
                    WindowReach::Outside
                },
                Reach::Open(_) => WindowReach::Outside,
                _ => WindowReach::Fault,
            }
        },
    }
}

/// The check models that an error model's slots stand for inside a window: none for
/// a slot that was removed or leaves the window.
pub open spec fn window_check_model(gadgets: Map<u64, Gadget>, found: WindowReach) -> Option<u64> {
    match found {
        WindowReach::To(target) => check_model_of(gadgets, target),
        _ => None,
    }
}

/// Whether a slot is valid inside a window: the gadget that it leads to has a check
/// model.
pub open spec fn window_slot_valid(gadgets: Map<u64, Gadget>, found: WindowReach) -> bool {
    match found {
        WindowReach::Fault => false,
        WindowReach::To(Target::Gadget(gid)) => gadgets.contains_key(gid) && gadgets[gid].binding_cid is Some,
        _ => true,
    }
}

/// Resolves the remote check models of an error model of gadget `gid` inside a
/// window; `None` if a slot is invalid.
pub fn expand_remote_check_models_in_window(
    gid: u64,
    remote_check_models: &Vec<Option<RemoteCheckModel>>,
    gadgets: &Registry<Gadget>,
    window: &IdSet,
) -> (expanded: Option<Vec<Option<u64>>>)
    requires
        gadgets.wf(),
    ensures
        expanded is Some <==> forall|ri: int|
            0 <= ri < remote_check_models@.len() ==> window_slot_valid(
                gadgets@,
                #[trigger] window_reach_of(gadgets@, window@, check_model_slots(remote_check_models@), gid, ri),
            ),
        expanded matches Some(cids) ==> {
            &&& cids@.len() == remote_check_models@.len()
            &&& forall|ri: int|
                0 <= ri < cids@.len() ==> cids@[ri] == window_check_model(
                    gadgets@,
                    #[trigger] window_reach_of(gadgets@, window@, check_model_slots(remote_check_models@), gid, ri),
                )
        },
{
    let slots = check_model_slots_of(remote_check_models);
    let mut cids: Vec<Option<u64>> = Vec::new();
    let mut ri: usize = 0;
    while ri < slots.len()
        invariant
            gadgets.wf(),
            slots@ == check_model_slots(remote_check_models@),
            ri <= slots@.len(),
            cids@.len() == ri,
            forall|k: int|
                0 <= k < ri ==> window_slot_valid(gadgets@, #[trigger] window_reach_of(gadgets@, window@, slots@, gid, k))
                    && cids@[k] == window_check_model(gadgets@, window_reach_of(gadgets@, window@, slots@, gid, k)),
        decreases slots@.len() - ri,
    {
        let found = follow_slot_in_window(gadgets, window, &slots, gid, ri, slots.len());
        assert(found == window_reach_of(gadgets@, window@, slots@, gid, ri as int));
        match found {
            WindowReach::To(Target::CheckModel(cid)) => {
                cids.push(Some(cid));
            },
            WindowReach::To(Target::Gadget(g)) => {
                let binding = match gadgets.get(g) {
                    Some(gadget) => gadget.binding_cid,
                    None => None,
                };
                if binding.is_none() {
                    return None;
                }
                cids.push(binding);
            },
            WindowReach::Fault => {
                return None;
            },
            _ => {
                cids.push(None);
            },
        }
        ri += 1;
    }
    Some(cids)
}

/// Inside a window that holds every gadget, following a slot finds what it finds
/// without a window.
pub proof fn law_full_window_hides_nothing(
    gadgets: Map<u64, Gadget>,
    window: Set<u64>,
    slots: Seq<Option<Slot>>,
    owner: u64,
    ri: int,
    fuel: nat,
)
    requires
        forall|gid: u64| window.contains(gid),
    ensures
        window_reach(gadgets, window, slots, owner, ri, fuel) == (match reach(gadgets, slots, owner, ri, fuel) {
            Reach::Removed => WindowReach::Removed,
            Reach::To(target) => WindowReach::To(target),
            Reach::Open(_) => WindowReach::Outside,
            Reach::Fault => WindowReach::Fault,
        }),
    decreases fuel,
{
    if fuel > 0 && 0 <= ri < slots.len() {
        if let Some(Slot::Via { previous: Some(p), port }) = slots[ri] {
            law_full_window_hides_nothing(gadgets, window, slots, owner, p as int, (fuel - 1) as nat);
        }
    }
}

/// Every gadget that a port reference finds inside a window is in the window.
pub proof fn law_window_reach_stays_inside(
    gadgets: Map<u64, Gadget>,
    window: Set<u64>,
    slots: Seq<Option<Slot>>,
    owner: u64,
    ri: int,
    fuel: nat,
    gid: u64,
)
    requires
        window_reach(gadgets, window, slots, owner, ri, fuel) == WindowReach::To(Target::Gadget(gid)),
        !(slots[ri] matches Some(Slot::Known(_))),
    ensures
        window.contains(gid),
{
}

// ---------------------------------------------------------------------------
// Resolving references when an error model is registered
// ---------------------------------------------------------------------------

/// What is known of a slot when its error model is registered.
#[derive(Debug, Clone, Copy, PartialEq, Eq, Structural)]
pub enum Referral {
    /// nothing: the slot was removed
    Removed,
    /// it leads to this gadget
    At(u64),
    /// it leads to no gadget yet, or names a check model outright
    Unresolved,
    /// the reference is invalid
    Fault,
}

/// Where a port leads, as far as it is known now. A gadget that does not exist yet
/// leaves the reference unresolved.
pub open spec fn referral_port(gadgets: Map<u64, Gadget>, from: u64, port: Option<Port>) -> Referral {
    if !gadgets.contains_key(from) {
        Referral::Unresolved
    } else {
        match reach_port(gadgets, from, port) {
            Reach::To(Target::Gadget(gid)) => Referral::At(gid),
            Reach::Open(_) => Referral::Unresolved,
            _ => Referral::Fault,
        }
    }
}

/// Where slot `ri` leads, as far as it is known now.
pub open spec fn referral(gadgets: Map<u64, Gadget>, slots: Seq<Option<Slot>>, owner: u64, ri: int, fuel: nat) -> Referral
    decreases fuel,
{
    if fuel == 0 || ri < 0 || ri >= slots.len() {
        Referral::Fault
    } else {
        match slots[ri] {
            None => Referral::Removed,
            Some(Slot::Known(_)) => Referral::Unresolved,
            Some(Slot::Via { previous: None, port }) => referral_port(gadgets, owner, port),
            Some(Slot::Via { previous: Some(p), port }) => match referral(
                gadgets,
                slots,
                owner,
                p as int,
                (fuel - 1) as nat,
            ) {
                Referral::At(gid) => referral_port(gadgets, gid, port),
                Referral::Fault => Referral::Fault,
                _ => Referral::Unresolved,
            },
        }
    }
}

/// Where slot `ri` leads, as far as it is known now.
pub open spec fn referral_of(gadgets: Map<u64, Gadget>, slots: Seq<Option<Slot>>, owner: u64, ri: int) -> Referral {
    referral(gadgets, slots, owner, ri, slots.len())
}

/// No slot is invalid.
pub open spec fn referrals_valid(gadgets: Map<u64, Gadget>, slots: Seq<Option<Slot>>, owner: u64) -> bool {
    forall|ri: int| 0 <= ri < slots.len() ==> !(#[trigger] referral_of(gadgets, slots, owner, ri) is Fault)
}

/// Follows one slot as far as it is known now.
fn follow_referral(
    gadgets: &Registry<Gadget>,
    slots: &Vec<Option<Slot>>,
    owner: u64,
    ri: usize,
    fuel: usize,
) -> (found: Referral)
    requires
        gadgets.wf(),
    ensures
        found == referral(gadgets@, slots@, owner, ri as int, fuel as nat),
    decreases fuel,
{
    if fuel == 0 || ri >= slots.len() {
        return Referral::Fault;
    }
    match slots[ri] {
        None => Referral::Removed,
        Some(Slot::Known(_)) => Referral::Unresolved,
        Some(Slot::Via { previous, port }) => {
            let from: u64 = match previous {
                None => owner,
                Some(p) => {
                    if p >= slots.len() as u64 {
                        assert(referral(gadgets@, slots@, owner, p as int, (fuel - 1) as nat) is Fault);
                        return Referral::Fault;
                    }
                    match follow_referral(gadgets, slots, owner, p as usize, fuel - 1) {
                        Referral::At(gid) => gid,
                        Referral::Fault => {
                            return Referral::Fault;
                        },
                        _ => {
                            return Referral::Unresolved;
                        },
                    }
                },
            };
            if !gadgets.contains_key(from) {
                return Referral::Unresolved;
            }
            match follow_any_port(gadgets, from, port) {
                Reach::To(Target::Gadget(gid)) => Referral::At(gid),
                Reach::Open(_) => Referral::Unresolved,
                _ => Referral::Fault,
            }
        },
    }
}

/// Resolves slot `ri` of an error model of gadget `owner_gid` as far as it is known
/// now.
pub fn resolve_remote_check_model_gid(
    gadgets: &Registry<Gadget>,
    slots: &Vec<Option<Slot>>,
    owner_gid: u64,
    ri: usize,
) -> (found: Referral)
    requires
        gadgets.wf(),
        ri < slots@.len(),
    ensures
        found == referral_of(gadgets@, slots@, owner_gid, ri as int),
{
    follow_referral(gadgets, slots, owner_gid, ri, slots.len())
}

/// The output port that keeps slot `ri` from being resolved: the first open port on
/// its way. None if the slot names a check model outright, or if something else than
/// an open port stops it.
pub open spec fn blocking_port(gadgets: Map<u64, Gadget>, slots: Seq<Option<Slot>>, owner: u64, ri: int, fuel: nat) -> Option<
    Connector,
>
    decreases fuel,
{
    if fuel == 0 || ri < 0 || ri >= slots.len() {
        None
    } else {
        match slots[ri] {
            Some(Slot::Via { previous: None, port }) => open_port(gadgets, owner, port),
            Some(Slot::Via { previous: Some(p), port }) => match referral_of(gadgets, slots, owner, p as int) {
                Referral::Unresolved => blocking_port(gadgets, slots, owner, p as int, (fuel - 1) as nat),
                Referral::At(gid) => open_port(gadgets, gid, port),
                _ => None,
            },
            _ => None,
        }
    }
}

/// The port, if it is an output that is not connected.
pub open spec fn open_port(gadgets: Map<u64, Gadget>, from: u64, port: Option<Port>) -> Option<Connector> {
    match reach_port(gadgets, from, port) {
        Reach::Open(c) => Some(c),
        _ => None,
    }
}

/// Finds the output port that keeps slot `ri` from being resolved.
fn find_blocker(
    gadgets: &Registry<Gadget>,
    slots: &Vec<Option<Slot>>,
    owner: u64,
    ri: usize,
    fuel: usize,
) -> (blocker: Option<Connector>)
    requires
        gadgets.wf(),
    ensures
        blocker == blocking_port(gadgets@, slots@, owner, ri as int, fuel as nat),
    decreases fuel,
{
    if fuel == 0 || ri >= slots.len() {
        return None;
    }
    match slots[ri] {
        Some(Slot::Via { previous, port }) => {
            let from: u64 = match previous {
                None => owner,
                Some(p) => {
                    if p >= slots.len() as u64 {
                        assert(referral_of(gadgets@, slots@, owner, p as int) is Fault);
                        return None;
                    }
                    match follow_referral(gadgets, slots, owner, p as usize, slots.len()) {
                        Referral::Unresolved => {
                            return find_blocker(gadgets, slots, owner, p as usize, fuel - 1);
                        },
                        Referral::At(gid) => gid,
                        _ => {
                            return None;
                        },
                    }
                },
            };
            match follow_any_port(gadgets, from, port) {
                Reach::Open(c) => Some(c),
                _ => None,
            }
        },
        _ => None,
    }
}

/// Finds the output port that keeps slot `ri` from being resolved.
pub fn find_blocking_port(
    ri: usize,
    slots: &Vec<Option<Slot>>,
    owner_gid: u64,
    gadgets: &Registry<Gadget>,
) -> (blocker: Option<Connector>)
    requires
        gadgets.wf(),
    ensures
        blocker == blocking_port(gadgets@, slots@, owner_gid, ri as int, slots@.len()),
{
    find_blocker(gadgets, slots, owner_gid, ri, slots.len())
}

/// A port that is reported as the blocker of a slot exists and is open.
pub proof fn law_blocking_port_is_open(
    gadgets: Map<u64, Gadget>,
    slots: Seq<Option<Slot>>,
    owner: u64,
    ri: int,
    fuel: nat,
)
    requires
        blocking_port(gadgets, slots, owner, ri, fuel) is Some,
    ensures
        ({
            let c = blocking_port(gadgets, slots, owner, ri, fuel)->0;
            &&& gadgets.contains_key(c.gid)
            &&& c.port < gadgets[c.gid].outputs@.len()
            &&& gadgets[c.gid].outputs@[c.port as int] is None
        }),
    decreases fuel,
{
    if let Some(Slot::Via { previous: Some(p), port }) = slots[ri] {
        if referral_of(gadgets, slots, owner, p as int) is Unresolved {
            law_blocking_port_is_open(gadgets, slots, owner, p as int, (fuel - 1) as nat);
        }
    }
}

/// A slot of a check model that is overridden has the value of the last override of it.
pub proof fn law_last_reroute_of_a_gadget_wins(base: Seq<RemoteGadget>, modifier: Option<CheckModelModifier>, slot: int, i: int)
    requires
        modifier is Some,
        0 <= i < modifier->0.reroute_remote_gadgets@.len(),
        modifier->0.reroute_remote_gadgets@[i].remote_gadget_index == slot,
        forall|k: int|
            i < k < modifier->0.reroute_remote_gadgets@.len() ==> (#[trigger] modifier->0.reroute_remote_gadgets@[k]).remote_gadget_index != slot,
    ensures
        slot < modified_gadgets_spec(base, modifier).len(),
        modified_gadgets_spec(base, modifier)[slot] == modifier->0.reroute_remote_gadgets@[i].value,
{
    let reroutes = modifier->0.reroute_remote_gadgets@;
    lemma_last_reroute_gadget(base, reroutes, reroutes.len() as int, slot, i);
}

proof fn lemma_last_reroute_gadget(base: Seq<RemoteGadget>, reroutes: Seq<RerouteRemoteGadget>, n: int, slot: int, i: int)
    requires
        0 <= i < n <= reroutes.len(),
        reroutes[i].remote_gadget_index == slot,
        forall|k: int| i < k < n ==> (#[trigger] reroutes[k]).remote_gadget_index != slot,
    ensures
        slot < rerouted_gadgets(base, reroutes, n).len(),
        rerouted_gadgets(base, reroutes, n)[slot] == reroutes[i].value,
    decreases n,
{
    if i < n - 1 {
        lemma_last_reroute_gadget(base, reroutes, n - 1, slot, i);
    }
}

/// A slot that no override names is the one of the type, and a removed one beyond them.
pub proof fn law_other_gadget_slots_stay(base: Seq<RemoteGadget>, modifier: Option<CheckModelModifier>, slot: int)
    requires
        0 <= slot < modified_gadgets_spec(base, modifier).len(),
        modifier is Some ==> forall|k: int|
            0 <= k < modifier->0.reroute_remote_gadgets@.len() ==> (#[trigger] modifier->0.reroute_remote_gadgets@[k]).remote_gadget_index != slot,
    ensures
        modified_gadgets_spec(base, modifier)[slot] == (if slot < base.len() {
            Some(base[slot])
        } else {
            None
        }),
        modified_gadgets_spec(base, modifier).len() >= base.len(),
{
    if let Some(m) = modifier {
        lemma_other_gadget_slots(base, m.reroute_remote_gadgets@, m.reroute_remote_gadgets@.len() as int, slot);
    }
}

proof fn lemma_other_gadget_slots(base: Seq<RemoteGadget>, reroutes: Seq<RerouteRemoteGadget>, n: int, slot: int)
    requires
        0 <= n <= reroutes.len(),
        0 <= slot,
        forall|k: int| 0 <= k < n ==> (#[trigger] reroutes[k]).remote_gadget_index != slot,
    ensures
        rerouted_gadgets(base, reroutes, n).len() >= base.len(),
        slot < rerouted_gadgets(base, reroutes, n).len() ==> rerouted_gadgets(base, reroutes, n)[slot] == (if slot < base.len() {
            Some(base[slot])
        } else {
            None
        }),
    decreases n,
{
    if n > 0 {
        lemma_other_gadget_slots(base, reroutes, n - 1, slot);
    }
}

/// A slot of an error model that is overridden has the value of the last override of it.
pub proof fn law_last_reroute_of_a_check_model_wins(base: Seq<RemoteCheckModel>, modifier: Option<ErrorModelModifier>, slot: int, i: int)
    requires
        modifier is Some,
        0 <= i < modifier->0.reroute_remote_check_models@.len(),
        modifier->0.reroute_remote_check_models@[i].remote_check_model_index == slot,
        forall|k: int|
            i < k < modifier->0.reroute_remote_check_models@.len() ==> (#[trigger] modifier->0.reroute_remote_check_models@[k]).remote_check_model_index != slot,
    ensures
        slot < modified_check_models_spec(base, modifier).len(),
        modified_check_models_spec(base, modifier)[slot] == modifier->0.reroute_remote_check_models@[i].value,
{
    let reroutes = modifier->0.reroute_remote_check_models@;
    lemma_last_reroute_check_model(base, reroutes, reroutes.len() as int, slot, i);
}

proof fn lemma_last_reroute_check_model(base: Seq<RemoteCheckModel>, reroutes: Seq<RerouteRemoteCheckModel>, n: int, slot: int, i: int)
    requires
        0 <= i < n <= reroutes.len(),
        reroutes[i].remote_check_model_index == slot,
        forall|k: int| i < k < n ==> (#[trigger] reroutes[k]).remote_check_model_index != slot,
    ensures
        slot < rerouted_check_models(base, reroutes, n).len(),
        rerouted_check_models(base, reroutes, n)[slot] == reroutes[i].value,
    decreases n,
{
    if i < n - 1 {
        lemma_last_reroute_check_model(base, reroutes, n - 1, slot, i);
    }
}

/// A slot that no override names is the one of the type, and a removed one beyond them.
pub proof fn law_other_check_model_slots_stay(base: Seq<RemoteCheckModel>, modifier: Option<ErrorModelModifier>, slot: int)
    requires
        0 <= slot < modified_check_models_spec(base, modifier).len(),
        modifier is Some ==> forall|k: int|
            0 <= k < modifier->0.reroute_remote_check_models@.len() ==> (#[trigger] modifier->0.reroute_remote_check_models@[k]).remote_check_model_index != slot,
    ensures
        modified_check_models_spec(base, modifier)[slot] == (if slot < base.len() {
            Some(base[slot])
        } else {
            None
        }),
        modified_check_models_spec(base, modifier).len() >= base.len(),
{
    if let Some(m) = modifier {
        lemma_other_check_model_slots(base, m.reroute_remote_check_models@, m.reroute_remote_check_models@.len() as int, slot);
    }
}

proof fn lemma_other_check_model_slots(base: Seq<RemoteCheckModel>, reroutes: Seq<RerouteRemoteCheckModel>, n: int, slot: int)
    requires
        0 <= n <= reroutes.len(),
        0 <= slot,
        forall|k: int| 0 <= k < n ==> (#[trigger] reroutes[k]).remote_check_model_index != slot,
    ensures
        rerouted_check_models(base, reroutes, n).len() >= base.len(),
        slot < rerouted_check_models(base, reroutes, n).len() ==> rerouted_check_models(base, reroutes, n)[slot] == (if slot < base.len() {
            Some(base[slot])
        } else {
            None
        }),
    decreases n,
{
    if n > 0 {
        lemma_other_check_model_slots(base, reroutes, n - 1, slot);
    }
}

/// A slot that names no other slot leads where the port of the owning gadget leads: an
/// output to the gadget connected there or to the open port, an input to the gadget that
/// it is connected to.
pub proof fn law_reference_follows_the_owner(
    gadgets: Map<u64, Gadget>,
    slots: Seq<Option<Slot>>,
    owner: u64,
    ri: int,
    p: u64,
    input: bool,
)
    requires
        gadgets.contains_key(owner),
        0 <= ri < slots.len(),
        slots[ri] == Some(
            Slot::Via {
                previous: None,
                port: Some(
                    if input {
                        Port::Input(p)
                    } else {
                        Port::Output(p)
                    },
                ),
            },
        ),
    ensures
        input && p < gadgets[owner].instance.connectors@.len() ==> reach_of(gadgets, slots, owner, ri) == Reach::To(
            Target::Gadget(gadgets[owner].instance.connectors@[p as int].gid),
        ),
        !input && p < gadgets[owner].outputs@.len() && gadgets[owner].outputs@[p as int] is Some ==> reach_of(
            gadgets,
            slots,
            owner,
            ri,
        ) == Reach::To(Target::Gadget(gadgets[owner].outputs@[p as int]->0.gid)),
        !input && p < gadgets[owner].outputs@.len() && gadgets[owner].outputs@[p as int] is None ==> reach_of(
            gadgets,
            slots,
            owner,
            ri,
        ) == Reach::Open(Connector { gid: owner, port: p }),
{
}

/// A slot that names its target outright leads there, and a removed one nowhere.
pub proof fn law_named_target_is_reached(gadgets: Map<u64, Gadget>, slots: Seq<Option<Slot>>, owner: u64, ri: int)
    requires
        0 <= ri < slots.len(),
    ensures
        slots[ri] is None ==> reach_of(gadgets, slots, owner, ri) == Reach::Removed,
        slots[ri] matches Some(Slot::Known(target)) ==> reach_of(gadgets, slots, owner, ri) == Reach::To(target),
{
}

/// A slot that leads somewhere by way of another slot leads one port further than that
/// slot: the other slot stands for a gadget, and the port of this gadget is connected to
/// the target.
pub proof fn law_reference_goes_one_port_further(
    gadgets: Map<u64, Gadget>,
    slots: Seq<Option<Slot>>,
    owner: u64,
    ri: int,
    previous: u64,
    port: Option<Port>,
    target: Target,
) -> (via: u64)
    requires
        0 <= ri < slots.len(),
        slots[ri] == Some(Slot::Via { previous: Some(previous), port }),
        reach_of(gadgets, slots, owner, ri) == Reach::To(target),
    ensures
        reach_of(gadgets, slots, owner, previous as int) == Reach::To(Target::Gadget(via)),
        gadgets.contains_key(via),
        port is Some,
        target is Gadget,
        match port->0 {
            Port::Input(p) => p < gadgets[via].instance.connectors@.len() && gadgets[via].instance.connectors@[p as int].gid
                == target->Gadget_0,
            Port::Output(p) => p < gadgets[via].outputs@.len() && gadgets[via].outputs@[p as int] is Some
                && gadgets[via].outputs@[p as int]->0.gid == target->Gadget_0,
        },
{
    let fuel = slots.len();
    let found = reach(gadgets, slots, owner, previous as int, (fuel - 1) as nat);
    lemma_reach_fuel(gadgets, slots, owner, previous as int, (fuel - 1) as nat, fuel);
    let via = match found {
        Reach::To(Target::Gadget(gid)) => gid,
        _ => 0,
    };
    via
}

/// A slot by way of a slot that stands for a gadget leads where the port of that gadget
/// leads.
pub proof fn law_port_of_a_reached_gadget_is_followed(
    gadgets: Map<u64, Gadget>,
    slots: Seq<Option<Slot>>,
    owner: u64,
    ri: int,
    previous: u64,
    p: u64,
    input: bool,
    via: u64,
    fuel: nat,
)
    requires
        fuel < slots.len(),
        0 <= ri < slots.len(),
        reach(gadgets, slots, owner, previous as int, fuel) == Reach::To(Target::Gadget(via)),
        gadgets.contains_key(via),
        slots[ri] == Some(
            Slot::Via {
                previous: Some(previous),
                port: Some(
                    if input {
                        Port::Input(p)
                    } else {
                        Port::Output(p)
                    },
                ),
            },
        ),
    ensures
        input && p < gadgets[via].instance.connectors@.len() ==> reach_of(gadgets, slots, owner, ri) == Reach::To(
            Target::Gadget(gadgets[via].instance.connectors@[p as int].gid),
        ),
        !input && p < gadgets[via].outputs@.len() && gadgets[via].outputs@[p as int] is Some ==> reach_of(
            gadgets,
            slots,
            owner,
            ri,
        ) == Reach::To(Target::Gadget(gadgets[via].outputs@[p as int]->0.gid)),
        !input && p < gadgets[via].outputs@.len() && gadgets[via].outputs@[p as int] is None ==> reach_of(
            gadgets,
            slots,
            owner,
            ri,
        ) == Reach::Open(Connector { gid: via, port: p }),
{
    lemma_reach_fuel(gadgets, slots, owner, previous as int, fuel, (slots.len() - 1) as nat);
}

/// A reference that waits for a port waits for an output that is there and not connected.
pub proof fn law_open_reference_waits_for_an_open_port(
    gadgets: Map<u64, Gadget>,
    slots: Seq<Option<Slot>>,
    owner: u64,
    ri: int,
    fuel: nat,
    c: Connector,
)
    requires
        reach(gadgets, slots, owner, ri, fuel) == Reach::Open(c),
    ensures
        gadgets.contains_key(c.gid),
        c.port < gadgets[c.gid].outputs@.len(),
        gadgets[c.gid].outputs@[c.port as int] is None,
    decreases fuel,
{
    if let Some(Slot::Via { previous: Some(p), port }) = slots[ri] {
        if reach(gadgets, slots, owner, p as int, (fuel - 1) as nat) is Open {
            law_open_reference_waits_for_an_open_port(gadgets, slots, owner, p as int, (fuel - 1) as nat, c);
        }
    }
}

/// Inside a window a reference leads where it leads in the whole network, or out of the
/// window; it leads to its target if every gadget on the way is inside.
pub proof fn law_window_reference_agrees_with_the_network(
    gadgets: Map<u64, Gadget>,
    window: Set<u64>,
    slots: Seq<Option<Slot>>,
    owner: u64,
    ri: int,
    fuel: nat,
    target: Target,
)
    requires
        window_reach(gadgets, window, slots, owner, ri, fuel) == WindowReach::To(target),
    ensures
        reach(gadgets, slots, owner, ri, fuel) == Reach::To(target),
    decreases fuel,
{
    if let Some(Slot::Via { previous: Some(p), port }) = slots[ri] {
        if let WindowReach::To(t) = window_reach(gadgets, window, slots, owner, p as int, (fuel - 1) as nat) {
            law_window_reference_agrees_with_the_network(gadgets, window, slots, owner, p as int, (fuel - 1) as nat, t);
        }
    }
}

/// A resolved list holds, slot by slot, the gadget that the slot leads to; slots that were
/// removed hold nothing.
pub proof fn law_resolved_gadgets_are_the_reached_ones(
    gadgets: Map<u64, Gadget>,
    slots: Seq<Option<Slot>>,
    owner: u64,
    gids: Seq<Option<u64>>,
    ri: int,
)
    requires
        expands_gadgets(gadgets, slots, owner, Ok(gids)),
        0 <= ri < slots.len(),
    ensures
        gids.len() == slots.len(),
        gids[ri] is None <==> slots[ri] is None,
        gids[ri] is Some ==> reach_of(gadgets, slots, owner, ri) == Reach::To(Target::Gadget(gids[ri]->0)),
{
    assert(reach_of(gadgets, slots, owner, ri) == (match gids[ri] {
        Some(g) => Reach::To(Target::Gadget(g)),
        None => Reach::Removed,
    }));
}

/// A resolved list of an error model holds, slot by slot, the check model that the slot
/// names or the one bound to the gadget that the slot leads to.
pub proof fn law_resolved_check_models_are_the_bound_ones(
    gadgets: Map<u64, Gadget>,
    slots: Seq<Option<Slot>>,
    owner: u64,
    cids: Seq<Option<u64>>,
    ri: int,
)
    requires
        expands_check_models(gadgets, slots, owner, Ok(cids)),
        0 <= ri < slots.len(),
    ensures
        cids.len() == slots.len(),
        cids[ri] is None <==> slots[ri] is None,
        reach_of(gadgets, slots, owner, ri) matches Reach::To(Target::CheckModel(cid)) ==> cids[ri] == Some(cid),
        reach_of(gadgets, slots, owner, ri) matches Reach::To(Target::Gadget(gid)) ==> cids[ri] == gadgets[gid].binding_cid
            && cids[ri] is Some,
{
    assert(match reach_of(gadgets, slots, owner, ri) {
        Reach::Removed => cids[ri] is None,
        Reach::To(target) => cids[ri] is Some && cids[ri] == check_model_of(gadgets, target),
        _ => false,
    });
}

} // verus!
