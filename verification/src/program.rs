//! How instructions extend a running program: which id a new instance gets, and how
//! a new gadget is connected to its peers.
use crate::bin;
use crate::bin::{Connector, GadgetType};
use crate::network::{Gadget, GadgetState};
use crate::registry::Registry;
use crate::remote::extends;
use vstd::prelude::*;

verus! {

// ---------------------------------------------------------------------------
// Ids
// ---------------------------------------------------------------------------

/// The id of a new instance. A request for id 0 takes the first id from the counter on
/// that is not in use, and moves the counter behind it; any other id is taken as it
/// is.
pub open spec fn assigned<V>(requested: u64, next: u64, taken: Map<u64, V>, id: u64, after: u64) -> bool {
    if requested != 0 {
        id == requested && after == next
    } else {
        &&& next <= id
        &&& !taken.contains_key(id)
        &&& forall|k: u64| next <= k < id ==> #[trigger] taken.contains_key(k)
        &&& after == id + 1
    }
}

/// Some id from the counter on is not in use.
pub open spec fn has_free_id<V>(next: u64, taken: Map<u64, V>) -> bool {
    exists|id: u64| next <= id < u64::MAX && !#[trigger] taken.contains_key(id)
}

/// Finds the id of a new instance.
pub fn assign_id<V>(requested: u64, next: &mut u64, taken: &Registry<V>) -> (id: u64)
    requires
        requested == 0 ==> has_free_id(*old(next), taken@),
    ensures
        assigned(requested, *old(next), taken@, id, *final(next)),
{
    if requested != 0 {
        return requested;
    }
    let ghost free = choose|id: u64| *old(next) <= id < u64::MAX && !#[trigger] taken@.contains_key(id);
    let mut id: u64 = *next;
    while taken.contains_key(id)
        invariant
            *old(next) <= id <= free,
            free < u64::MAX,
            !taken@.contains_key(free),
            forall|k: u64| *old(next) <= k < id ==> #[trigger] taken@.contains_key(k),
        decreases u64::MAX - id,
    {
        id += 1;
    }
    *next = id + 1;
    id
}

/// An id that the counter gives is not in use, and is not given out again: the counter is
/// behind it. A counter that starts at 1 never gives out 0.
pub proof fn law_assigned_id_is_fresh<V>(next: u64, taken: Map<u64, V>, id: u64, after: u64)
    requires
        assigned(0, next, taken, id, after),
    ensures
        !taken.contains_key(id),
        next <= id < after,
        next >= 1 ==> id != 0,
{
}

// ---------------------------------------------------------------------------
// Connections
// ---------------------------------------------------------------------------

/// The connectors name open outputs of gadgets, each once.
pub open spec fn connectable(gadgets: Map<u64, Gadget>, connectors: Seq<Connector>) -> bool {
    &&& forall|k: int|
        0 <= k < connectors.len() ==> {
            &&& gadgets.contains_key((#[trigger] connectors[k]).gid)
            &&& connectors[k].port < gadgets[connectors[k].gid].outputs@.len()
            &&& gadgets[connectors[k].gid].outputs@[connectors[k].port as int] is None
        }
    &&& forall|i: int, j: int| 0 <= i < j < connectors.len() ==> #[trigger] connectors[i] != #[trigger] connectors[j]
}

/// The outputs of gadget `peer` after the first `n` connectors of gadget `gid`.
pub open spec fn linked(outputs: Seq<Option<Connector>>, peer: u64, gid: u64, connectors: Seq<Connector>, n: int) -> Seq<
    Option<Connector>,
>
    decreases n,
{
    if n <= 0 {
        outputs
    } else {
        let before = linked(outputs, peer, gid, connectors, n - 1);
        if connectors[n - 1].gid == peer {
            before.update(connectors[n - 1].port as int, Some(Connector { gid, port: (n - 1) as u64 }))
        } else {
            before
        }
    }
}

/// Two gadgets that differ in their outputs only.
pub open spec fn same_but_outputs(a: Gadget, b: Gadget) -> bool {
    &&& a.instance == b.instance
    &&& a.outcomes == b.outcomes
    &&& a.decode_ready == b.decode_ready
    &&& a.binding_cid == b.binding_cid
    &&& a.pauli_frame == b.pauli_frame
    &&& a.is_free_hop == b.is_free_hop
    &&& a.state == b.state
}

/// The gadgets after the first `n` connectors of gadget `gid` were connected.
pub open spec fn all_linked(
    before: Map<u64, Gadget>,
    after: Map<u64, Gadget>,
    gid: u64,
    connectors: Seq<Connector>,
    n: int,
) -> bool {
    &&& after.dom() == before.dom()
    &&& forall|g: u64| #[trigger]
        before.contains_key(g) ==> {
            &&& same_but_outputs(before[g], after[g])
            &&& after[g].outputs@ == linked(before[g].outputs@, g, gid, connectors, n)
        }
}

/// The first `n` connectors name outputs that gadget `peer` has.
pub open spec fn ports_exist(outputs: Seq<Option<Connector>>, peer: u64, connectors: Seq<Connector>, n: int) -> bool {
    forall|k: int| 0 <= k < n && (#[trigger] connectors[k]).gid == peer ==> connectors[k].port < outputs.len()
}

/// Connecting keeps the number of outputs.
pub proof fn lemma_linked_len(outputs: Seq<Option<Connector>>, peer: u64, gid: u64, connectors: Seq<Connector>, n: int)
    requires
        n <= connectors.len(),
        ports_exist(outputs, peer, connectors, n),
    ensures
        linked(outputs, peer, gid, connectors, n).len() == outputs.len(),
    decreases n,
{
    if n > 0 {
        lemma_linked_len(outputs, peer, gid, connectors, n - 1);
    }
}

/// Connecting changes named ports only.
pub proof fn lemma_linked_other(
    outputs: Seq<Option<Connector>>,
    peer: u64,
    gid: u64,
    connectors: Seq<Connector>,
    n: int,
    port: int,
)
    requires
        0 <= n <= connectors.len(),
        ports_exist(outputs, peer, connectors, n),
        0 <= port < outputs.len(),
        forall|k: int| 0 <= k < n ==> !((#[trigger] connectors[k]).gid == peer && connectors[k].port == port),
    ensures
        linked(outputs, peer, gid, connectors, n)[port] == outputs[port],
    decreases n,
{
    lemma_linked_len(outputs, peer, gid, connectors, n);
    if n > 0 {
        lemma_linked_len(outputs, peer, gid, connectors, n - 1);
        lemma_linked_other(outputs, peer, gid, connectors, n - 1, port);
    }
}

/// A named port leads to the gadget that names it.
pub proof fn lemma_linked_at(
    outputs: Seq<Option<Connector>>,
    peer: u64,
    gid: u64,
    connectors: Seq<Connector>,
    n: int,
    k: int,
)
    requires
        0 <= k < n <= connectors.len(),
        ports_exist(outputs, peer, connectors, n),
        connectors[k].gid == peer,
        forall|i: int, j: int| 0 <= i < j < connectors.len() ==> #[trigger] connectors[i] != #[trigger] connectors[j],
    ensures
        linked(outputs, peer, gid, connectors, n)[connectors[k].port as int] == Some(
            Connector { gid, port: k as u64 },
        ),
    decreases n,
{
    lemma_linked_len(outputs, peer, gid, connectors, n - 1);
    if k < n - 1 {
        lemma_linked_at(outputs, peer, gid, connectors, n - 1, k);
        assert(connectors[k] != connectors[n - 1]);
    }
}

/// Whether the connectors name open outputs of gadgets, each once.
pub fn can_connect(gadgets: &Registry<Gadget>, connectors: &Vec<Connector>) -> (yes: bool)
    requires
        gadgets.wf(),
    ensures
        yes == connectable(gadgets@, connectors@),
{
    let mut k: usize = 0;
    while k < connectors.len()
        invariant
            gadgets.wf(),
            k <= connectors@.len(),
            forall|i: int|
                0 <= i < k ==> {
                    &&& gadgets@.contains_key((#[trigger] connectors@[i]).gid)
                    &&& connectors@[i].port < gadgets@[connectors@[i].gid].outputs@.len()
                    &&& gadgets@[connectors@[i].gid].outputs@[connectors@[i].port as int] is None
                },
            forall|i: int, j: int| 0 <= i < j < k ==> #[trigger] connectors@[i] != #[trigger] connectors@[j],
        decreases connectors@.len() - k,
    {
        let connector = connectors[k];
        let ok = match gadgets.get(connector.gid) {
            Some(gadget) => if connector.port < gadget.outputs.len() as u64 {
                gadget.outputs[connector.port as usize].is_none()
            } else {
                false
            },
            None => false,
        };
        if !ok {
            assert(connectors@[k as int] == connector);
            return false;
        }
        let mut i: usize = 0;
        while i < k
            invariant
                i <= k < connectors@.len(),
                connector == connectors@[k as int],
                forall|j: int| 0 <= j < i ==> #[trigger] connectors@[j] != connector,
            decreases k - i,
        {
            if connectors[i] == connector {
                assert(connectors@[i as int] == connectors@[k as int]);
                return false;
            }
            i += 1;
        }
        k += 1;
    }
    true
}

/// Connects the inputs of gadget `gid`: every output that a connector names leads to
/// the input.
pub fn connect(gadgets: &mut Registry<Gadget>, gid: u64, connectors: &Vec<Connector>)
    requires
        old(gadgets).wf(),
        connectable(old(gadgets)@, connectors@),
    ensures
        final(gadgets).wf(),
        all_linked(old(gadgets)@, final(gadgets)@, gid, connectors@, connectors@.len() as int),
{
    let ghost before = gadgets@;
    let mut k: usize = 0;
    while k < connectors.len()
        invariant
            gadgets.wf(),
            k <= connectors@.len(),
            connectable(before, connectors@),
            all_linked(before, gadgets@, gid, connectors@, k as int),
            before == old(gadgets)@,
        decreases connectors@.len() - k,
    {
        let connector = connectors[k];
        let ghost now = gadgets@;
        proof {
            assert(before.contains_key(connectors@[k as int].gid));
            lemma_linked_len(before[connector.gid].outputs@, connector.gid, gid, connectors@, k as int);
        }
        let peer = gadgets.get_mut(connector.gid);
        assert(connector.port < peer.outputs.len());
        peer.outputs.set(connector.port as usize, Some(Connector { gid, port: k as u64 }));
        proof {
            assert forall|g: u64| #[trigger] before.contains_key(g) implies same_but_outputs(before[g], gadgets@[g])
                && gadgets@[g].outputs@ == linked(before[g].outputs@, g, gid, connectors@, k as int + 1) by {
                assert(now.dom().contains(g));
                if g != connector.gid {
                    assert(gadgets@[g] == now[g]);
                }
            }
            assert(gadgets@.dom() =~= before.dom());
        }
        k += 1;
    }
}

// ---------------------------------------------------------------------------
// New gadgets
// ---------------------------------------------------------------------------

/// Whether gadgets of a type add nothing to hop distances.
pub open spec fn free_hop(gadget_type: GadgetType) -> bool {
    match gadget_type.is_free_hop {
        Some(free) => free,
        None => gadget_type.num_measurements == 0,
    }
}

/// A gadget that was just created.
pub open spec fn is_new_gadget(gadget: Gadget, gid: u64, request: bin::Gadget, gadget_type: GadgetType) -> bool {
    &&& gadget.instance == (bin::Gadget { gid, ..request })
    &&& gadget.outcomes is None
    &&& !gadget.decode_ready
    &&& gadget.binding_cid is None
    &&& gadget.outputs@ == Seq::new(gadget_type.outputs@.len(), |i: int| None::<Connector>)
    &&& gadget.pauli_frame is None
    &&& gadget.is_free_hop == free_hop(gadget_type)
    &&& gadget.state == GadgetState::Uncommitted
}

/// The gadgets after gadget `gid` was created and connected.
pub open spec fn gadget_added(
    before: Map<u64, Gadget>,
    after: Map<u64, Gadget>,
    gid: u64,
    request: bin::Gadget,
    gadget_type: GadgetType,
) -> bool {
    &&& after.dom() == before.dom().insert(gid)
    &&& is_new_gadget(after[gid], gid, request, gadget_type)
    &&& forall|g: u64| #[trigger]
        before.contains_key(g) && g != gid ==> {
            &&& same_but_outputs(before[g], after[g])
            &&& after[g].outputs@ == linked(
                before[g].outputs@,
                g,
                gid,
                request.connectors@,
                request.connectors@.len() as int,
            )
        }
}

/// Creates a gadget and connects its inputs.
pub fn add_gadget(gadgets: &mut Registry<Gadget>, gid: u64, request: bin::Gadget, gadget_type: &GadgetType)
    requires
        old(gadgets).wf(),
        connectable(old(gadgets)@, request.connectors@),
    ensures
        final(gadgets).wf(),
        gadget_added(old(gadgets)@, final(gadgets)@, gid, request, *gadget_type),
{
    let ghost before = gadgets@;
    connect(gadgets, gid, &request.connectors);
    let ghost connected = gadgets@;
    let mut outputs: Vec<Option<Connector>> = Vec::new();
    let mut i: usize = 0;
    while i < gadget_type.outputs.len()
        invariant
            i <= gadget_type.outputs@.len(),
            outputs@ =~= Seq::new(i as nat, |i: int| None::<Connector>),
        decreases gadget_type.outputs@.len() - i,
    {
        outputs.push(None);
        i += 1;
    }
    let is_free_hop = match gadget_type.is_free_hop {
        Some(free) => free,
        None => gadget_type.num_measurements == 0,
    };
    let gadget = Gadget {
        instance: bin::Gadget { gid, ..request },
        outcomes: None,
        decode_ready: false,
        binding_cid: None,
        outputs,
        pauli_frame: None,
        is_free_hop,
        state: GadgetState::Uncommitted,
    };
    gadgets.insert(gid, gadget);
    proof {
        assert(gadgets@.dom() =~= before.dom().insert(gid));
        assert forall|g: u64| #[trigger] before.contains_key(g) && g != gid implies same_but_outputs(before[g], gadgets@[g])
            && gadgets@[g].outputs@ == linked(
            before[g].outputs@,
            g,
            gid,
            request.connectors@,
            request.connectors@.len() as int,
        ) by {
            assert(gadgets@[g] == connected[g]);
        }
    }
}

/// A program that gets a gadget with a new id keeps everything that was there:
/// no gadget is lost, no input changes, and no connected output is touched.
pub proof fn law_new_gadget_extends_network(
    before: Map<u64, Gadget>,
    after: Map<u64, Gadget>,
    gid: u64,
    request: bin::Gadget,
    gadget_type: GadgetType,
)
    requires
        gadget_added(before, after, gid, request, gadget_type),
        connectable(before, request.connectors@),
        !before.contains_key(gid),
    ensures
        extends(after, before),
{
    let connectors = request.connectors@;
    assert forall|g: u64| #[trigger] before.contains_key(g) implies {
        &&& after.contains_key(g)
        &&& after[g].instance.connectors@ == before[g].instance.connectors@
        &&& after[g].outputs@.len() == before[g].outputs@.len()
        &&& forall|p: int|
            0 <= p < before[g].outputs@.len() && before[g].outputs@[p] is Some ==> after[g].outputs@[p] == before[g].outputs@[p]
    } by {
        assert(after.dom().contains(g));
        lemma_linked_len(before[g].outputs@, g, gid, connectors, connectors.len() as int);
        assert forall|p: int| 0 <= p < before[g].outputs@.len() && before[g].outputs@[p] is Some implies after[g].outputs@[p]
            == before[g].outputs@[p] by {
            lemma_linked_other(before[g].outputs@, g, gid, connectors, connectors.len() as int, p);
        }
    }
}

/// The two ends of a new connection name each other.
pub proof fn law_connections_are_mutual(
    before: Map<u64, Gadget>,
    after: Map<u64, Gadget>,
    gid: u64,
    request: bin::Gadget,
    gadget_type: GadgetType,
    k: int,
)
    requires
        gadget_added(before, after, gid, request, gadget_type),
        connectable(before, request.connectors@),
        !before.contains_key(gid),
        0 <= k < request.connectors@.len(),
    ensures
        ({
            let c = request.connectors@[k];
            &&& after[gid].instance.connectors@[k] == c
            &&& after[c.gid].outputs@[c.port as int] == Some(Connector { gid, port: k as u64 })
        }),
{
    let c = request.connectors@[k];
    assert(before.contains_key(c.gid));
    lemma_linked_at(before[c.gid].outputs@, c.gid, gid, request.connectors@, request.connectors@.len() as int, k);
}

/// Connected gadgets are peers of each other.
pub proof fn law_connected_gadgets_are_peers(
    before: Map<u64, Gadget>,
    after: Map<u64, Gadget>,
    gid: u64,
    request: bin::Gadget,
    gadget_type: GadgetType,
    k: int,
)
    requires
        gadget_added(before, after, gid, request, gadget_type),
        connectable(before, request.connectors@),
        !before.contains_key(gid),
        0 <= k < request.connectors@.len(),
    ensures
        after[gid].has_peer(request.connectors@[k].gid),
        after[request.connectors@[k].gid].has_peer(gid),
{
    law_connections_are_mutual(before, after, gid, request, gadget_type, k);
    let c = request.connectors@[k];
    assert(before.contains_key(c.gid));
    assert(after[gid].instance.connectors@[k].gid == c.gid);
    lemma_linked_len(before[c.gid].outputs@, c.gid, gid, request.connectors@, request.connectors@.len() as int);
    assert(after[c.gid].outputs@[c.port as int] is Some && after[c.gid].outputs@[c.port as int]->0.gid == gid);
}

/// A new gadget has no outcomes, no check model and nothing connected to its outputs. It is
/// a free hop if its type says so, and where the type says nothing, if it measures nothing.
pub proof fn law_new_gadget_is_bare(
    before: Map<u64, Gadget>,
    after: Map<u64, Gadget>,
    gid: u64,
    request: bin::Gadget,
    gadget_type: GadgetType,
)
    requires
        gadget_added(before, after, gid, request, gadget_type),
    ensures
        after.contains_key(gid),
        after[gid].instance == (bin::Gadget { gid, ..request }),
        after[gid].outcomes is None,
        after[gid].binding_cid is None,
        after[gid].outputs@.len() == gadget_type.outputs@.len(),
        forall|p: int| 0 <= p < after[gid].outputs@.len() ==> (#[trigger] after[gid].outputs@[p]) is None,
        after[gid].state == GadgetState::Uncommitted,
        gadget_type.is_free_hop is Some ==> after[gid].is_free_hop == gadget_type.is_free_hop->0,
        gadget_type.is_free_hop is None ==> after[gid].is_free_hop == (gadget_type.num_measurements == 0),
{
    assert(after.dom().contains(gid));
}

} // verus!
