//! Commit regions and decoder windows.
//!
//! Distances count hop-counted gadgets; free-hop gadgets, which measure nothing, are
//! passed for free.
use crate::collections::{IdMap, IdSet};
use crate::network::{Gadget, GadgetState};
use crate::registry::Registry;
use std::collections::VecDeque;
use vstd::prelude::*;

verus! {

// ---------------------------------------------------------------------------
// Walks
// ---------------------------------------------------------------------------

/// What a gadget adds to a distance.
pub open spec fn hops(gadgets: Map<u64, Gadget>, gid: u64) -> int {
    if gadgets[gid].is_free_hop {
        0
    } else {
        1
    }
}

/// A walk along connections, inside a window.
pub open spec fn is_walk(gadgets: Map<u64, Gadget>, window: Set<u64>, walk: Seq<u64>) -> bool {
    &&& walk.len() > 0
    &&& forall|i: int| 0 <= i < walk.len() ==> window.contains(#[trigger] walk[i])
    &&& forall|i: int| 0 <= i < walk.len() - 1 ==> gadgets[#[trigger] walk[i]].has_peer(walk[i + 1])
}

/// What the first `n` gadgets of a walk add to its length.
pub open spec fn hops_upto(gadgets: Map<u64, Gadget>, walk: Seq<u64>, n: int) -> int
    decreases n,
{
    if n <= 0 {
        0
    } else {
        hops_upto(gadgets, walk, n - 1) + hops(gadgets, walk[n - 1])
    }
}

/// Whether a connection of the gadget leads out of the window: to a gadget that is
/// not in it, or nowhere.
pub open spec fn on_boundary(gadgets: Map<u64, Gadget>, window: Set<u64>, gid: u64) -> bool {
    ||| exists|i: int|
        0 <= i < gadgets[gid].instance.connectors@.len() && !window.contains(
            (#[trigger] gadgets[gid].instance.connectors@[i]).gid,
        )
    ||| exists|i: int|
        0 <= i < gadgets[gid].outputs@.len() && ((#[trigger] gadgets[gid].outputs@[i]) matches Some(c) ==> !window.contains(
            c.gid,
        ))
}

/// A walk from the boundary of the window to `gid` that leaves at most `d`
/// hop-counted gadgets behind it.
pub open spec fn walk_from_boundary(gadgets: Map<u64, Gadget>, window: Set<u64>, walk: Seq<u64>, gid: u64, d: int) -> bool {
    &&& is_walk(gadgets, window, walk)
    &&& walk.last() == gid
    &&& on_boundary(gadgets, window, walk[0])
    &&& hops_upto(gadgets, walk, walk.len() - 1) <= d
}

/// Whether at most `d` hop-counted gadgets lie between `gid` and the boundary.
pub open spec fn near_boundary(gadgets: Map<u64, Gadget>, window: Set<u64>, gid: u64, d: int) -> bool {
    exists|walk: Seq<u64>| #[trigger] walk_from_boundary(gadgets, window, walk, gid, d)
}

proof fn lemma_hops_nonnegative(gadgets: Map<u64, Gadget>, walk: Seq<u64>, n: int)
    ensures
        0 <= hops_upto(gadgets, walk, n),
    decreases n,
{
    if n > 0 {
        lemma_hops_nonnegative(gadgets, walk, n - 1);
    }
}

pub proof fn lemma_hops_same(gadgets: Map<u64, Gadget>, a: Seq<u64>, b: Seq<u64>, n: int)
    requires
        0 <= n <= a.len(),
        n <= b.len(),
        forall|i: int| 0 <= i < n ==> a[i] == b[i],
    ensures
        hops_upto(gadgets, a, n) == hops_upto(gadgets, b, n),
    decreases n,
{
    if n > 0 {
        lemma_hops_same(gadgets, a, b, n - 1);
    }
}

// ---------------------------------------------------------------------------
// Distances from the boundary
// ---------------------------------------------------------------------------

/// The label of a gadget, the greatest number if it has none.
pub open spec fn label(dist: Map<u64, usize>, gid: u64) -> int {
    if dist.contains_key(gid) {
        dist[gid] as int
    } else {
        usize::MAX as int
    }
}

/// The sum of the labels of the first `n` gadgets.
spec fn label_sum(dist: Map<u64, usize>, ids: Seq<u64>, n: int) -> int
    decreases n,
{
    if n <= 0 {
        0
    } else {
        label_sum(dist, ids, n - 1) + label(dist, ids[n - 1])
    }
}

proof fn lemma_label_sum_nonnegative(dist: Map<u64, usize>, ids: Seq<u64>, n: int)
    ensures
        0 <= label_sum(dist, ids, n),
    decreases n,
{
    if n > 0 {
        lemma_label_sum_nonnegative(dist, ids, n - 1);
    }
}

/// Lowering one label lowers the sum.
proof fn lemma_label_sum_drops(dist: Map<u64, usize>, ids: Seq<u64>, n: int, at: int, value: usize)
    requires
        0 <= n <= ids.len(),
        0 <= at < ids.len(),
        ids.no_duplicates(),
        value < label(dist, ids[at]),
    ensures
        at < n ==> label_sum(dist.insert(ids[at], value), ids, n) < label_sum(dist, ids, n),
        n <= at ==> label_sum(dist.insert(ids[at], value), ids, n) == label_sum(dist, ids, n),
    decreases n,
{
    if n > 0 {
        lemma_label_sum_drops(dist, ids, n - 1, at, value);
    }
}

/// What the search from the boundary knows: every label has a walk.
spec fn labels_sound(gadgets: Map<u64, Gadget>, window: Set<u64>, dist: Map<u64, usize>) -> bool {
    forall|gid: u64| #[trigger]
        dist.contains_key(gid) ==> window.contains(gid) && dist[gid] < usize::MAX && near_boundary(
            gadgets,
            window,
            gid,
            dist[gid] as int,
        )
}

/// No connection of `gid` could lower a label.
spec fn relaxed(gadgets: Map<u64, Gadget>, window: Set<u64>, dist: Map<u64, usize>, gid: u64) -> bool {
    forall|peer: u64|
        window.contains(peer) && #[trigger] gadgets[gid].has_peer(peer) && dist[gid] + hops(gadgets, gid) < usize::MAX
            ==> label(dist, peer) <= dist[gid] + hops(gadgets, gid)
}

/// Every labelled gadget is relaxed or queued.
spec fn search_invariant(gadgets: Map<u64, Gadget>, window: Set<u64>, dist: Map<u64, usize>, queue: Seq<u64>) -> bool {
    forall|gid: u64| #[trigger] dist.contains_key(gid) ==> queue.contains(gid) || relaxed(gadgets, window, dist, gid)
}

proof fn lemma_extend_boundary_walk(gadgets: Map<u64, Gadget>, window: Set<u64>, from: u64, peer: u64, d: int)
    requires
        near_boundary(gadgets, window, from, d),
        window.contains(peer),
        gadgets[from].has_peer(peer),
    ensures
        near_boundary(gadgets, window, peer, d + hops(gadgets, from)),
{
    let walk = choose|walk: Seq<u64>| #[trigger] walk_from_boundary(gadgets, window, walk, from, d);
    let longer = walk.push(peer);
    assert forall|i: int| 0 <= i < longer.len() - 1 implies gadgets[#[trigger] longer[i]].has_peer(longer[i + 1]) by {
        if i < walk.len() - 1 {
            assert(gadgets[walk[i]].has_peer(walk[i + 1]));
        } else {
            assert(longer[i] == from);
        }
    }
    assert forall|i: int| 0 <= i < longer.len() implies window.contains(#[trigger] longer[i]) by {
        if i < walk.len() {
            assert(window.contains(walk[i]));
        }
    }
    lemma_hops_same(gadgets, walk, longer, walk.len() - 1);
    assert(longer[walk.len() - 1] == from);
    assert(longer[0] == walk[0]);
    assert(walk_from_boundary(gadgets, window, longer, peer, d + hops(gadgets, from)));
}

/// Labels that no connection could lower are distances.
proof fn lemma_labels_complete(
    gadgets: Map<u64, Gadget>,
    window: Set<u64>,
    dist: Map<u64, usize>,
    walk: Seq<u64>,
    n: int,
)
    requires
        is_walk(gadgets, window, walk),
        0 <= n < walk.len(),
        on_boundary(gadgets, window, walk[0]),
        forall|gid: u64|
            window.contains(gid) && #[trigger] on_boundary(gadgets, window, gid) ==> dist.contains_key(gid) && dist[gid] == 0,
        search_invariant(gadgets, window, dist, Seq::empty()),
        hops_upto(gadgets, walk, n) < usize::MAX,
    ensures
        dist.contains_key(walk[n]),
        dist[walk[n]] <= hops_upto(gadgets, walk, n),
    decreases n,
{
    if n > 0 {
        lemma_labels_complete(gadgets, window, dist, walk, n - 1);
        assert(dist.contains_key(walk[n - 1]));
        assert(relaxed(gadgets, window, dist, walk[n - 1]));
        assert(gadgets[walk[n - 1]].has_peer(walk[n - 1 + 1]));
        assert(window.contains(walk[n]));
    } else {
        assert(window.contains(walk[0]));
    }
}

/// Whether a connection of the gadget leads out of the window.
fn check_boundary(gadget: &Gadget, window: &IdSet, Ghost(gadgets): Ghost<Map<u64, Gadget>>, Ghost(gid): Ghost<u64>) -> (open:
    bool)
    requires
        gadgets[gid] == *gadget,
    ensures
        open == on_boundary(gadgets, window@, gid),
{
    let mut i: usize = 0;
    while i < gadget.instance.connectors.len()
        invariant
            gadgets[gid] == *gadget,
            i <= gadget.instance.connectors@.len(),
            forall|k: int| 0 <= k < i ==> window@.contains((#[trigger] gadget.instance.connectors@[k]).gid),
        decreases gadget.instance.connectors@.len() - i,
    {
        if !window.contains(gadget.instance.connectors[i].gid) {
            assert(!window@.contains(gadgets[gid].instance.connectors@[i as int].gid));
            return true;
        }
        i += 1;
    }
    let mut i: usize = 0;
    while i < gadget.outputs.len()
        invariant
            gadgets[gid] == *gadget,
            i <= gadget.outputs@.len(),
            forall|k: int|
                0 <= k < i ==> (#[trigger] gadget.outputs@[k]) is Some && window@.contains(gadget.outputs@[k]->0.gid),
            forall|k: int|
                0 <= k < gadget.instance.connectors@.len() ==> window@.contains(
                    (#[trigger] gadget.instance.connectors@[k]).gid,
                ),
        decreases gadget.outputs@.len() - i,
    {
        let open = match gadget.outputs[i] {
            Some(c) => !window.contains(c.gid),
            None => true,
        };
        if open {
            assert(gadgets[gid].outputs@[i as int] matches Some(c) ==> !window@.contains(c.gid));
            return true;
        }
        i += 1;
    }
    false
}

/// What a queue holds after an item was put in front.
pub(crate) proof fn lemma_push_front(before: Seq<u64>, after: Seq<u64>, x: u64)
    requires
        after == seq![x] + before,
    ensures
        after.contains(x),
        forall|g: u64| before.contains(g) ==> #[trigger] after.contains(g),
        forall|g: u64| #[trigger] after.contains(g) ==> before.contains(g) || g == x,
{
    assert(after[0] == x);
    assert forall|g: u64| before.contains(g) implies #[trigger] after.contains(g) by {
        let i = choose|i: int| 0 <= i < before.len() && before[i] == g;
        assert(after[i + 1] == g);
    }
    assert forall|g: u64| #[trigger] after.contains(g) implies before.contains(g) || g == x by {
        let i = choose|i: int| 0 <= i < after.len() && after[i] == g;
        if i > 0 {
            assert(before[i - 1] == g);
        }
    }
}

/// What a queue holds after an item was put behind.
pub(crate) proof fn lemma_push_back(before: Seq<u64>, after: Seq<u64>, x: u64)
    requires
        after == before.push(x),
    ensures
        after.contains(x),
        forall|g: u64| before.contains(g) ==> #[trigger] after.contains(g),
        forall|g: u64| #[trigger] after.contains(g) ==> before.contains(g) || g == x,
{
    assert(after[before.len() as int] == x);
    assert forall|g: u64| before.contains(g) implies #[trigger] after.contains(g) by {
        let i = choose|i: int| 0 <= i < before.len() && before[i] == g;
        assert(after[i] == g);
    }
    assert forall|g: u64| #[trigger] after.contains(g) implies before.contains(g) || g == x by {
        let i = choose|i: int| 0 <= i < after.len() && after[i] == g;
        if i < before.len() {
            assert(before[i] == g);
        }
    }
}

/// Lowers the label of a peer and queues it, if the way through the current gadget is
/// shorter.
fn visit_inward(
    gadgets: &Registry<Gadget>,
    window: &IdSet,
    dist: &mut IdMap,
    queue: &mut VecDeque<u64>,
    peer: u64,
    way: usize,
    Ghost(ids): Ghost<Seq<u64>>,
)
    requires
        gadgets.wf(),
        ids.no_duplicates(),
        ids.to_set() == window@,
        forall|gid: u64| #[trigger] window@.contains(gid) ==> gadgets@.contains_key(gid),
    ensures
        !window@.contains(peer) ==> final(dist)@ == old(dist)@ && final(queue)@ == old(queue)@,
        window@.contains(peer) && way < label(old(dist)@, peer) ==> {
            &&& final(dist)@ == old(dist)@.insert(peer, way)
            &&& final(queue)@.contains(peer)
            &&& forall|gid: u64| old(queue)@.contains(gid) ==> #[trigger] final(queue)@.contains(gid)
            &&& label_sum(final(dist)@, ids, ids.len() as int) < label_sum(old(dist)@, ids, ids.len() as int)
        },
        window@.contains(peer) && way >= label(old(dist)@, peer) ==> final(dist)@ == old(dist)@ && final(queue)@ == old(queue)@,
        forall|gid: u64| #[trigger] final(queue)@.contains(gid) ==> old(queue)@.contains(gid) || gid == peer,
{
    if !window.contains(peer) {
        return;
    }
    let known: usize = match dist.get(peer) {
        Some(d) => d,
        None => usize::MAX,
    };
    if way < known {
        let ghost before = queue@;
        proof {
            assert(ids.to_set().contains(peer));
            let at = choose|at: int| 0 <= at < ids.len() && ids[at] == peer;
            lemma_label_sum_drops(dist@, ids, ids.len() as int, at, way);
        }
        dist.insert(peer, way);
        let gadget = gadgets.get(peer).unwrap();
        if gadget.is_free_hop {
            queue.push_front(peer);
            proof {
                lemma_push_front(before, queue@, peer);
            }
        } else {
            queue.push_back(peer);
            proof {
                lemma_push_back(before, queue@, peer);
            }
        }
    }
}

/// What holds while the connections of `current` are visited.
spec fn visiting(
    gadgets: Map<u64, Gadget>,
    window: Set<u64>,
    dist: Map<u64, usize>,
    queue: Seq<u64>,
    current: u64,
    my: usize,
) -> bool {
    &&& labels_sound(gadgets, window, dist)
    &&& dist.contains_key(current)
    &&& dist[current] == my
    &&& forall|gid: u64| #[trigger] dist.contains_key(gid) && gid != current ==> queue.contains(gid) || relaxed(gadgets, window, dist, gid)
    &&& forall|gid: u64|
        window.contains(gid) && #[trigger] on_boundary(gadgets, window, gid) ==> dist.contains_key(gid) && dist[gid] == 0
    &&& forall|gid: u64| #[trigger] queue.contains(gid) ==> dist.contains_key(gid)
}

proof fn lemma_visit_keeps(
    gadgets: Map<u64, Gadget>,
    window: Set<u64>,
    before: Map<u64, usize>,
    queue_before: Seq<u64>,
    after: Map<u64, usize>,
    queue_after: Seq<u64>,
    current: u64,
    my: usize,
    peer: u64,
    way: usize,
)
    requires
        visiting(gadgets, window, before, queue_before, current, my),
        way == my + hops(gadgets, current),
        gadgets[current].has_peer(peer),
        window.contains(peer),
        way < label(before, peer),
        after == before.insert(peer, way),
        queue_after.contains(peer),
        forall|gid: u64| queue_before.contains(gid) ==> #[trigger] queue_after.contains(gid),
        forall|gid: u64| #[trigger] queue_after.contains(gid) ==> queue_before.contains(gid) || gid == peer,
    ensures
        visiting(gadgets, window, after, queue_after, current, my),
        forall|gid: u64| label(after, gid) <= #[trigger] label(before, gid),
{
    lemma_extend_boundary_walk(gadgets, window, current, peer, my as int);
    assert(peer != current);
    assert forall|gid: u64| #[trigger] after.contains_key(gid) && gid != current implies queue_after.contains(gid) || relaxed(gadgets, window, after, gid) by {
        if gid != peer {
            assert(before.contains_key(gid));
            if relaxed(gadgets, window, before, gid) {
                assert forall|p: u64| window.contains(p) && #[trigger] gadgets[gid].has_peer(p) && after[gid] + hops(gadgets, gid) < usize::MAX implies label(
                    after,
                    p,
                ) <= after[gid] + hops(gadgets, gid) by {
                    assert(label(before, p) <= before[gid] + hops(gadgets, gid));
                }
            }
        }
    }
}

/// Visits every connection of the current gadget.
fn expand_inward(
    gadgets: &Registry<Gadget>,
    window: &IdSet,
    dist: &mut IdMap,
    queue: &mut VecDeque<u64>,
    current: u64,
    my: usize,
    Ghost(ids): Ghost<Seq<u64>>,
)
    requires
        gadgets.wf(),
        ids.no_duplicates(),
        ids.to_set() == window@,
        forall|gid: u64| #[trigger] window@.contains(gid) ==> gadgets@.contains_key(gid),
        visiting(gadgets@, window@, old(dist)@, old(queue)@, current, my),
    ensures
        visiting(gadgets@, window@, final(dist)@, final(queue)@, current, my),
        relaxed(gadgets@, window@, final(dist)@, current),
        label_sum(final(dist)@, ids, ids.len() as int) <= label_sum(old(dist)@, ids, ids.len() as int),
        label_sum(final(dist)@, ids, ids.len() as int) == label_sum(old(dist)@, ids, ids.len() as int) ==> final(queue)@
            == old(queue)@,
{
    assert(dist@.contains_key(current));
    let gadget = gadgets.get(current).unwrap();
    let step: usize = if gadget.is_free_hop { 0 } else { 1 };
    let way: usize = my + step;
    let mut i: usize = 0;
    while i < gadget.instance.connectors.len()
        invariant
            gadgets.wf(),
            ids.no_duplicates(),
            ids.to_set() == window@,
            forall|gid: u64| #[trigger] window@.contains(gid) ==> gadgets@.contains_key(gid),
            gadgets@.contains_key(current),
            *gadget == gadgets@[current],
            way == my + hops(gadgets@, current),
            i <= gadget.instance.connectors@.len(),
            visiting(gadgets@, window@, dist@, queue@, current, my),
            label_sum(dist@, ids, ids.len() as int) <= label_sum(old(dist)@, ids, ids.len() as int),
            label_sum(dist@, ids, ids.len() as int) == label_sum(old(dist)@, ids, ids.len() as int) ==> queue@ == old(queue)@,
            forall|k: int|
                0 <= k < i && window@.contains((#[trigger] gadget.instance.connectors@[k]).gid) ==> label(
                    dist@,
                    gadget.instance.connectors@[k].gid,
                ) <= way,
        decreases gadget.instance.connectors@.len() - i,
    {
        let peer: u64 = gadget.instance.connectors[i].gid;
        let ghost dist1 = dist@;
        let ghost queue1 = queue@;
        assert(gadgets@[current].has_peer(peer)) by {
            assert(gadget.instance.connectors@[i as int].gid == peer);
        }
        visit_inward(gadgets, window, dist, queue, peer, way, Ghost(ids));
        proof {
            if window@.contains(peer) && way < label(dist1, peer) {
                lemma_visit_keeps(gadgets@, window@, dist1, queue1, dist@, queue@, current, my, peer, way);
            }
            assert forall|k: int| 0 <= k < i + 1 && window@.contains((#[trigger] gadget.instance.connectors@[k]).gid) implies label(
                dist@,
                gadget.instance.connectors@[k].gid,
            ) <= way by {
                assert(k < i ==> label(dist1, gadget.instance.connectors@[k].gid) <= way);
            }
        }
        i += 1;
    }
    let mut i: usize = 0;
    while i < gadget.outputs.len()
        invariant
            gadgets.wf(),
            ids.no_duplicates(),
            ids.to_set() == window@,
            forall|gid: u64| #[trigger] window@.contains(gid) ==> gadgets@.contains_key(gid),
            gadgets@.contains_key(current),
            *gadget == gadgets@[current],
            way == my + hops(gadgets@, current),
            i <= gadget.outputs@.len(),
            visiting(gadgets@, window@, dist@, queue@, current, my),
            label_sum(dist@, ids, ids.len() as int) <= label_sum(old(dist)@, ids, ids.len() as int),
            label_sum(dist@, ids, ids.len() as int) == label_sum(old(dist)@, ids, ids.len() as int) ==> queue@ == old(queue)@,
            forall|k: int|
                0 <= k < gadget.instance.connectors@.len() && window@.contains(
                    (#[trigger] gadget.instance.connectors@[k]).gid,
                ) ==> label(dist@, gadget.instance.connectors@[k].gid) <= way,
            forall|k: int|
                0 <= k < i && (#[trigger] gadget.outputs@[k]) is Some && window@.contains(gadget.outputs@[k]->0.gid) ==> label(
                    dist@,
                    gadget.outputs@[k]->0.gid,
                ) <= way,
        decreases gadget.outputs@.len() - i,
    {
        if let Some(c) = gadget.outputs[i] {
            let peer: u64 = c.gid;
            let ghost dist1 = dist@;
            let ghost queue1 = queue@;
            assert(gadgets@[current].has_peer(peer)) by {
                assert(gadget.outputs@[i as int] is Some);
            }
            visit_inward(gadgets, window, dist, queue, peer, way, Ghost(ids));
            proof {
                if window@.contains(peer) && way < label(dist1, peer) {
                    lemma_visit_keeps(gadgets@, window@, dist1, queue1, dist@, queue@, current, my, peer, way);
                }
                assert forall|k: int| 0 <= k < gadget.instance.connectors@.len() && window@.contains((#[trigger] gadget.instance.connectors@[k]).gid) implies label(
                    dist@,
                    gadget.instance.connectors@[k].gid,
                ) <= way by {
                    assert(label(dist1, gadget.instance.connectors@[k].gid) <= way);
                }
                assert forall|k: int| 0 <= k < i + 1 && (#[trigger] gadget.outputs@[k]) is Some && window@.contains(gadget.outputs@[k]->0.gid) implies label(
                    dist@,
                    gadget.outputs@[k]->0.gid,
                ) <= way by {
                    assert(k < i ==> label(dist1, gadget.outputs@[k]->0.gid) <= way);
                }
            }
        }
        i += 1;
    }
    proof {
        assert(relaxed(gadgets@, window@, dist@, current)) by {
            assert forall|peer: u64| window@.contains(peer) && #[trigger] gadgets@[current].has_peer(peer) && dist@[current] + hops(gadgets@, current) < usize::MAX implies label(
                dist@,
                peer,
            ) <= dist@[current] + hops(gadgets@, current) by {
                if exists|k: int| 0 <= k < gadget.instance.connectors@.len() && (#[trigger] gadget.instance.connectors@[k]).gid == peer {
                    let k = choose|k: int| 0 <= k < gadget.instance.connectors@.len() && (#[trigger] gadget.instance.connectors@[k]).gid == peer;
                    assert(window@.contains(gadget.instance.connectors@[k].gid));
                } else {
                    let k = choose|k: int| 0 <= k < gadget.outputs@.len() && (#[trigger] gadget.outputs@[k]) is Some && gadget.outputs@[k]->0.gid == peer;
                    assert(window@.contains(gadget.outputs@[k]->0.gid));
                }
            }
        }
    }
}

/// The distance of every gadget of the window from the boundary, by label correction
/// from the boundary inward. A step costs what the gadget that it leaves adds.
fn boundary_distances(ids: &Vec<u64>, window: &IdSet, gadgets: &Registry<Gadget>) -> (dist: IdMap)
    requires
        gadgets.wf(),
        ids@.no_duplicates(),
        ids@.to_set() == window@,
        forall|gid: u64| #[trigger] window@.contains(gid) ==> gadgets@.contains_key(gid),
    ensures
        labels_sound(gadgets@, window@, dist@),
        forall|gid: u64, d: int|
            window@.contains(gid) && d < usize::MAX && #[trigger] near_boundary(gadgets@, window@, gid, d) ==> label(dist@, gid) <= d,
{
    let mut dist = IdMap::new();
    let mut queue: VecDeque<u64> = VecDeque::new();
    let ghost all = ids@;
    let mut i: usize = 0;
    while i < ids.len()
        invariant
            gadgets.wf(),
            all == ids@,
            all.to_set() == window@,
            i <= ids@.len(),
            forall|gid: u64| #[trigger] window@.contains(gid) ==> gadgets@.contains_key(gid),
            labels_sound(gadgets@, window@, dist@),
            forall|gid: u64| #[trigger] dist@.contains_key(gid) <==> queue@.contains(gid),
            forall|gid: u64| #[trigger] dist@.contains_key(gid) ==> dist@[gid] == 0,
            forall|k: int| 0 <= k < i && #[trigger] on_boundary(gadgets@, window@, all[k]) ==> dist@.contains_key(all[k]),
        decreases ids@.len() - i,
    {
        let gid: u64 = ids[i];
        assert(all.to_set().contains(gid));
        let gadget = gadgets.get(gid).unwrap();
        if check_boundary(gadget, window, Ghost(gadgets@), Ghost(gid)) {
            let ghost before = queue@;
            let ghost old_dist = dist@;
            dist.insert(gid, 0);
            queue.push_back(gid);
            proof {
                let walk = seq![gid];
                assert(walk_from_boundary(gadgets@, window@, walk, gid, 0));
                assert(queue@[before.len() as int] == gid);
                assert forall|g: u64| #[trigger] dist@.contains_key(g) <==> queue@.contains(g) by {
                    if queue@.contains(g) {
                        let k = choose|k: int| 0 <= k < queue@.len() && queue@[k] == g;
                        if k < before.len() {
                            assert(before[k] == g);
                            assert(before.contains(g));
                            assert(old_dist.contains_key(g));
                        }
                    }
                    if old_dist.contains_key(g) {
                        assert(before.contains(g));
                        let k = choose|k: int| 0 <= k < before.len() && before[k] == g;
                        assert(queue@[k] == g);
                    }
                }
            }
        }
        i += 1;
    }
    proof {
        assert forall|gid: u64| window@.contains(gid) && #[trigger] on_boundary(gadgets@, window@, gid) implies dist@.contains_key(gid) && dist@[gid] == 0 by {
            assert(all.to_set().contains(gid));
            let k = choose|k: int| 0 <= k < all.len() && all[k] == gid;
            assert(on_boundary(gadgets@, window@, all[k]));
        }
    }
    while queue.len() > 0
        invariant
            gadgets.wf(),
            all == ids@,
            all.no_duplicates(),
            all.to_set() == window@,
            forall|gid: u64| #[trigger] window@.contains(gid) ==> gadgets@.contains_key(gid),
            labels_sound(gadgets@, window@, dist@),
            search_invariant(gadgets@, window@, dist@, queue@),
            forall|gid: u64|
                window@.contains(gid) && #[trigger] on_boundary(gadgets@, window@, gid) ==> dist@.contains_key(gid) && dist@[gid] == 0,
            forall|gid: u64| #[trigger] queue@.contains(gid) ==> dist@.contains_key(gid),
        decreases label_sum(dist@, all, all.len() as int), queue@.len(),
    {
        let ghost sum0 = label_sum(dist@, all, all.len() as int);
        let ghost queue0 = queue@;
        proof {
            lemma_label_sum_nonnegative(dist@, all, all.len() as int);
        }
        let current: u64 = queue.pop_front().unwrap();
        let ghost popped = queue@;
        proof {
            assert(queue0[0] == current);
            assert(queue0.contains(current));
            assert(dist@.contains_key(current));
            assert forall|gid: u64| #[trigger] queue0.contains(gid) && gid != current implies popped.contains(gid) by {
                let k = choose|k: int| 0 <= k < queue0.len() && queue0[k] == gid;
                assert(popped[k - 1] == gid);
            }
            assert forall|gid: u64| #[trigger] popped.contains(gid) implies queue0.contains(gid) by {
                let k = choose|k: int| 0 <= k < popped.len() && popped[k] == gid;
                assert(queue0[k + 1] == gid);
            }
        }
        let my: usize = dist.get(current).unwrap();
        expand_inward(gadgets, window, &mut dist, &mut queue, current, my, Ghost(all));
        proof {
            assert(search_invariant(gadgets@, window@, dist@, queue@));
            lemma_label_sum_nonnegative(dist@, all, all.len() as int);
        }
    }
    proof {
        assert(queue@ =~= Seq::<u64>::empty());
        assert forall|gid: u64, d: int| window@.contains(gid) && d < usize::MAX && #[trigger] near_boundary(gadgets@, window@, gid, d) implies label(dist@, gid) <= d by {
            let walk = choose|walk: Seq<u64>| #[trigger] walk_from_boundary(gadgets@, window@, walk, gid, d);
            lemma_labels_complete(gadgets@, window@, dist@, walk, walk.len() - 1);
        }
    }
    dist
}

// ---------------------------------------------------------------------------
// Commit regions
// ---------------------------------------------------------------------------

/// A hop-counted gadget that may be committed: it is not taken, and at least
/// `buffer_radius` hop-counted gadgets lie between it and the boundary.
pub open spec fn committable(gadgets: Map<u64, Gadget>, window: Set<u64>, buffer_radius: int, gid: u64) -> bool {
    &&& window.contains(gid)
    &&& !gadgets[gid].is_free_hop
    &&& gadgets[gid].state == GadgetState::Uncommitted
    &&& !near_boundary(gadgets, window, gid, buffer_radius - 1)
}

/// A free-hop gadget that may be absorbed.
pub open spec fn absorbable(gadgets: Map<u64, Gadget>, window: Set<u64>, gid: u64) -> bool {
    &&& window.contains(gid)
    &&& gadgets[gid].is_free_hop
    &&& gadgets[gid].state == GadgetState::Uncommitted
}

/// Whether `gid` is connected to a gadget of the region or to a committed gadget.
pub open spec fn touches(gadgets: Map<u64, Gadget>, region: spec_fn(u64) -> bool, gid: u64) -> bool {
    exists|peer: u64| #[trigger]
        gadgets[gid].has_peer(peer) && (region(peer) || (gadgets.contains_key(peer) && gadgets[peer].state
            == GadgetState::Committed))
}

/// A chain of free-hop gadgets, from one that touches the committable gadgets or a
/// committed one to `gid`.
pub open spec fn is_absorption_chain(
    gadgets: Map<u64, Gadget>,
    window: Set<u64>,
    buffer_radius: int,
    chain: Seq<u64>,
    gid: u64,
) -> bool {
    &&& chain.len() > 0
    &&& chain.last() == gid
    &&& forall|i: int| 0 <= i < chain.len() ==> absorbable(gadgets, window, #[trigger] chain[i])
    &&& touches(gadgets, |g: u64| committable(gadgets, window, buffer_radius, g), chain[0])
    &&& forall|i: int| 0 <= i < chain.len() - 1 ==> gadgets[#[trigger] chain[i + 1]].has_peer(chain[i])
}

/// Whether a free-hop gadget is absorbed.
pub open spec fn absorbed(gadgets: Map<u64, Gadget>, window: Set<u64>, buffer_radius: int, gid: u64) -> bool {
    exists|chain: Seq<u64>| #[trigger] is_absorption_chain(gadgets, window, buffer_radius, chain, gid)
}

/// The commit region of a window. With a buffer it is everything committable, and the
/// free-hop gadgets that would be stranded otherwise; without one it is the center.
pub open spec fn in_commit_region(
    gadgets: Map<u64, Gadget>,
    window: Set<u64>,
    center: u64,
    buffer_radius: int,
    gid: u64,
) -> bool {
    if buffer_radius == 0 {
        gid == center
    } else {
        committable(gadgets, window, buffer_radius, gid) || absorbed(gadgets, window, buffer_radius, gid)
    }
}

/// The committable gadgets of a window.
fn committable_gadgets(ids: &Vec<u64>, window: &IdSet, gadgets: &Registry<Gadget>, buffer_radius: usize) -> (region: IdSet)
    requires
        gadgets.wf(),
        buffer_radius > 0,
        ids@.no_duplicates(),
        ids@.to_set() == window@,
        forall|gid: u64| #[trigger] window@.contains(gid) ==> gadgets@.contains_key(gid),
    ensures
        forall|gid: u64| #[trigger] region@.contains(gid) <==> committable(gadgets@, window@, buffer_radius as int, gid),
{
    let dist = boundary_distances(ids, window, gadgets);
    let mut region = IdSet::new();
    let mut i: usize = 0;
    while i < ids.len()
        invariant
            gadgets.wf(),
            buffer_radius > 0,
            i <= ids@.len(),
            ids@.to_set() == window@,
            forall|gid: u64| #[trigger] window@.contains(gid) ==> gadgets@.contains_key(gid),
            labels_sound(gadgets@, window@, dist@),
            forall|gid: u64, d: int|
                window@.contains(gid) && d < usize::MAX && #[trigger] near_boundary(gadgets@, window@, gid, d) ==> label(
                    dist@,
                    gid,
                ) <= d,
            forall|gid: u64| #[trigger] region@.contains(gid) ==> committable(gadgets@, window@, buffer_radius as int, gid),
            forall|k: int|
                0 <= k < i && committable(gadgets@, window@, buffer_radius as int, #[trigger] ids@[k]) ==> region@.contains(
                    ids@[k],
                ),
        decreases ids@.len() - i,
    {
        let gid: u64 = ids[i];
        assert(ids@.to_set().contains(gid));
        let gadget = gadgets.get(gid).unwrap();
        let far = match dist.get(gid) {
            Some(d) => d >= buffer_radius,
            None => true,
        };
        proof {
            if dist@.contains_key(gid) && dist@[gid] < buffer_radius {
                let walk = choose|walk: Seq<u64>| #[trigger] walk_from_boundary(gadgets@, window@, walk, gid, dist@[gid] as int);
                assert(walk_from_boundary(gadgets@, window@, walk, gid, buffer_radius - 1));
            }
            if near_boundary(gadgets@, window@, gid, buffer_radius - 1) {
                assert(label(dist@, gid) <= buffer_radius - 1);
            }
            assert(far == !near_boundary(gadgets@, window@, gid, buffer_radius - 1));
        }
        let uncommitted = match gadget.state {
            GadgetState::Uncommitted => true,
            _ => false,
        };
        if !gadget.is_free_hop && uncommitted && far {
            assert(committable(gadgets@, window@, buffer_radius as int, gid));
            let ghost before = region@;
            region.insert(gid);
            assert forall|g: u64| #[trigger] region@.contains(g) implies committable(gadgets@, window@, buffer_radius as int, g) by {
                assert(g == gid || before.contains(g));
            }
        }
        i += 1;
    }
    proof {
        assert forall|gid: u64| committable(gadgets@, window@, buffer_radius as int, gid) implies #[trigger] region@.contains(gid) by {
            assert(ids@.to_set().contains(gid));
            let k = choose|k: int| 0 <= k < ids@.len() && ids@[k] == gid;
            assert(committable(gadgets@, window@, buffer_radius as int, ids@[k]));
        }
    }
    region
}

/// Whether a gadget is connected to the region or to a committed gadget.
fn check_touches(gadgets: &Registry<Gadget>, region: &IdSet, gid: u64) -> (touching: bool)
    requires
        gadgets.wf(),
        gadgets@.contains_key(gid),
    ensures
        touching == touches(gadgets@, |g: u64| region@.contains(g), gid),
{
    let gadget = gadgets.get(gid).unwrap();
    let ghost inside = |g: u64| region@.contains(g);
    let mut i: usize = 0;
    while i < gadget.instance.connectors.len()
        invariant
            gadgets.wf(),
            *gadget == gadgets@[gid],
            inside == (|g: u64| region@.contains(g)),
            i <= gadget.instance.connectors@.len(),
            forall|k: int| 0 <= k < i ==> !in_reach(gadgets@, region@, (#[trigger] gadget.instance.connectors@[k]).gid),
        decreases gadget.instance.connectors@.len() - i,
    {
        let peer: u64 = gadget.instance.connectors[i].gid;
        if check_in_reach(gadgets, region, peer) {
            proof {
                assert(gadget.instance.connectors@[i as int].gid == peer);
                assert(gadgets@[gid].has_peer(peer));
                assert(inside(peer) == region@.contains(peer));
            }
            return true;
        }
        i += 1;
    }
    let mut i: usize = 0;
    while i < gadget.outputs.len()
        invariant
            gadgets.wf(),
            *gadget == gadgets@[gid],
            inside == (|g: u64| region@.contains(g)),
            i <= gadget.outputs@.len(),
            forall|k: int|
                0 <= k < gadget.instance.connectors@.len() ==> !in_reach(
                    gadgets@,
                    region@,
                    (#[trigger] gadget.instance.connectors@[k]).gid,
                ),
            forall|k: int|
                0 <= k < i && (#[trigger] gadget.outputs@[k]) is Some ==> !in_reach(gadgets@, region@, gadget.outputs@[k]->0.gid),
        decreases gadget.outputs@.len() - i,
    {
        if let Some(c) = gadget.outputs[i] {
            if check_in_reach(gadgets, region, c.gid) {
                proof {
                    assert(gadget.outputs@[i as int] is Some);
                    assert(gadgets@[gid].has_peer(c.gid));
                    assert(inside(c.gid) == region@.contains(c.gid));
                }
                return true;
            }
        }
        i += 1;
    }
    proof {
        assert forall|peer: u64| #[trigger] gadgets@[gid].has_peer(peer) implies !(inside(peer) || (gadgets@.contains_key(peer)
            && gadgets@[peer].state == GadgetState::Committed)) by {
            assert(inside(peer) == region@.contains(peer));
            if exists|k: int| 0 <= k < gadget.instance.connectors@.len() && (#[trigger] gadget.instance.connectors@[k]).gid == peer {
                let k = choose|k: int| 0 <= k < gadget.instance.connectors@.len() && (#[trigger] gadget.instance.connectors@[k]).gid == peer;
                assert(!in_reach(gadgets@, region@, gadget.instance.connectors@[k].gid));
            } else {
                let k = choose|k: int| 0 <= k < gadget.outputs@.len() && (#[trigger] gadget.outputs@[k]) is Some && gadget.outputs@[k]->0.gid == peer;
                assert(!in_reach(gadgets@, region@, gadget.outputs@[k]->0.gid));
            }
        }
    }
    false
}

/// Whether a gadget is in the region or committed.
spec fn in_reach(gadgets: Map<u64, Gadget>, region: Set<u64>, gid: u64) -> bool {
    region.contains(gid) || (gadgets.contains_key(gid) && gadgets[gid].state == GadgetState::Committed)
}

/// Whether a gadget is in the region or committed.
fn check_in_reach(gadgets: &Registry<Gadget>, region: &IdSet, gid: u64) -> (yes: bool)
    requires
        gadgets.wf(),
    ensures
        yes == in_reach(gadgets@, region@, gid),
{
    if region.contains(gid) {
        return true;
    }
    match gadgets.get(gid) {
        Some(gadget) => match gadget.state {
            GadgetState::Committed => true,
            _ => false,
        },
        None => false,
    }
}

/// What has been absorbed so far.
spec fn partly_absorbed(gadgets: Map<u64, Gadget>, window: Set<u64>, buffer_radius: int, region: Set<u64>) -> bool {
    &&& forall|gid: u64| committable(gadgets, window, buffer_radius, gid) ==> #[trigger] region.contains(gid)
    &&& forall|gid: u64| #[trigger] region.contains(gid) ==> window.contains(gid) && (committable(
        gadgets,
        window,
        buffer_radius,
        gid,
    ) || absorbed(gadgets, window, buffer_radius, gid))
}

proof fn lemma_absorb_one(gadgets: Map<u64, Gadget>, window: Set<u64>, buffer_radius: int, region: Set<u64>, gid: u64)
    requires
        partly_absorbed(gadgets, window, buffer_radius, region),
        absorbable(gadgets, window, gid),
        touches(gadgets, |g: u64| region.contains(g), gid),
    ensures
        partly_absorbed(gadgets, window, buffer_radius, region.insert(gid)),
{
    let inside = |g: u64| region.contains(g);
    let base = |g: u64| committable(gadgets, window, buffer_radius, g);
    let peer = choose|peer: u64| #[trigger]
        gadgets[gid].has_peer(peer) && (inside(peer) || (gadgets.contains_key(peer) && gadgets[peer].state
            == GadgetState::Committed));
    if gadgets.contains_key(peer) && gadgets[peer].state == GadgetState::Committed {
        assert(touches(gadgets, base, gid));
        assert(is_absorption_chain(gadgets, window, buffer_radius, seq![gid], gid));
    } else {
        assert(region.contains(peer));
        if committable(gadgets, window, buffer_radius, peer) {
            assert(base(peer));
            assert(touches(gadgets, base, gid));
            assert(is_absorption_chain(gadgets, window, buffer_radius, seq![gid], gid));
        } else {
            let chain = choose|chain: Seq<u64>| #[trigger] is_absorption_chain(gadgets, window, buffer_radius, chain, peer);
            let longer = chain.push(gid);
            assert forall|i: int| 0 <= i < longer.len() implies absorbable(gadgets, window, #[trigger] longer[i]) by {
                if i < chain.len() {
                    assert(absorbable(gadgets, window, chain[i]));
                }
            }
            assert forall|i: int| 0 <= i < longer.len() - 1 implies gadgets[#[trigger] longer[i + 1]].has_peer(longer[i]) by {
                if i < chain.len() - 1 {
                    assert(gadgets[chain[i + 1]].has_peer(chain[i]));
                } else {
                    assert(longer[i] == peer);
                    assert(longer[i + 1] == gid);
                }
            }
            assert(longer[0] == chain[0]);
            assert(is_absorption_chain(gadgets, window, buffer_radius, longer, gid));
        }
    }
}

proof fn lemma_chain_in_region(
    gadgets: Map<u64, Gadget>,
    window: Set<u64>,
    buffer_radius: int,
    region: Set<u64>,
    chain: Seq<u64>,
    gid: u64,
    n: int,
)
    requires
        partly_absorbed(gadgets, window, buffer_radius, region),
        is_absorption_chain(gadgets, window, buffer_radius, chain, gid),
        0 <= n < chain.len(),
        forall|g: u64| #[trigger] absorbable(gadgets, window, g) && !region.contains(g) ==> !touches(
            gadgets,
            |x: u64| region.contains(x),
            g,
        ),
    ensures
        region.contains(chain[n]),
    decreases n,
{
    let inside = |x: u64| region.contains(x);
    assert(absorbable(gadgets, window, chain[n]));
    if n > 0 {
        lemma_chain_in_region(gadgets, window, buffer_radius, region, chain, gid, n - 1);
        assert(gadgets[chain[n - 1 + 1]].has_peer(chain[n - 1]));
        assert(inside(chain[n - 1]));
        assert(touches(gadgets, inside, chain[n]));
    } else {
        let base = |g: u64| committable(gadgets, window, buffer_radius, g);
        let peer = choose|peer: u64| #[trigger]
            gadgets[chain[0]].has_peer(peer) && (base(peer) || (gadgets.contains_key(peer) && gadgets[peer].state
                == GadgetState::Committed));
        if base(peer) {
            assert(region.contains(peer));
            assert(inside(peer));
        }
        assert(touches(gadgets, inside, chain[0]));
    }
}

/// Absorbs the free-hop gadgets that touch the region or a committed gadget, until
/// none is left.
fn absorb_free_hops(
    ids: &Vec<u64>,
    window: &IdSet,
    gadgets: &Registry<Gadget>,
    buffer_radius: usize,
    region: IdSet,
) -> (grown: IdSet)
    requires
        gadgets.wf(),
        ids@.no_duplicates(),
        ids@.to_set() == window@,
        forall|gid: u64| #[trigger] window@.contains(gid) ==> gadgets@.contains_key(gid),
        forall|gid: u64| #[trigger] region@.contains(gid) <==> committable(gadgets@, window@, buffer_radius as int, gid),
    ensures
        forall|gid: u64| #[trigger]
            grown@.contains(gid) <==> committable(gadgets@, window@, buffer_radius as int, gid) || absorbed(
                gadgets@,
                window@,
                buffer_radius as int,
                gid,
            ),
{
    let mut region = region;
    let mut settled = false;
    proof {
        vstd::seq_lib::seq_to_set_is_finite(ids@);
    }
    while !settled
        invariant
            gadgets.wf(),
            ids@.to_set() == window@,
            window@.finite(),
            forall|gid: u64| #[trigger] window@.contains(gid) ==> gadgets@.contains_key(gid),
            partly_absorbed(gadgets@, window@, buffer_radius as int, region@),
            settled ==> forall|g: u64| #[trigger]
                absorbable(gadgets@, window@, g) && !region@.contains(g) ==> !touches(
                    gadgets@,
                    |x: u64| region@.contains(x),
                    g,
                ),
        decreases (if settled { 0int } else { 1int + window@.len() - region@.len() }),
    {
        let ghost before = region@;
        let mut changed = false;
        let mut i: usize = 0;
        proof {
            vstd::set_lib::lemma_len_subset(region@, window@);
        }
        while i < ids.len()
            invariant
                gadgets.wf(),
                ids@.to_set() == window@,
                window@.finite(),
                i <= ids@.len(),
                forall|gid: u64| #[trigger] window@.contains(gid) ==> gadgets@.contains_key(gid),
                partly_absorbed(gadgets@, window@, buffer_radius as int, region@),
                before.finite(),
                before.subset_of(region@),
                changed ==> before.len() < region@.len(),
                !changed ==> region@ == before,
                !changed ==> forall|k: int|
                    0 <= k < i && absorbable(gadgets@, window@, #[trigger] ids@[k]) && !region@.contains(ids@[k]) ==> !touches(
                        gadgets@,
                        |x: u64| region@.contains(x),
                        ids@[k],
                    ),
            decreases ids@.len() - i,
        {
            let gid: u64 = ids[i];
            assert(ids@.to_set().contains(gid));
            if !region.contains(gid) {
                let gadget = gadgets.get(gid).unwrap();
                let uncommitted = match gadget.state {
                    GadgetState::Uncommitted => true,
                    _ => false,
                };
                if gadget.is_free_hop && uncommitted && check_touches(gadgets, &region, gid) {
                    proof {
                        lemma_absorb_one(gadgets@, window@, buffer_radius as int, region@, gid);
                        vstd::set_lib::lemma_len_subset(region@, window@);
                        vstd::set_lib::lemma_len_subset(before, region@);
                    }
                    region.insert(gid);
                    changed = true;
                }
            }
            i += 1;
        }
        proof {
            vstd::set_lib::lemma_len_subset(region@, window@);
            if !changed {
                assert forall|g: u64| #[trigger] absorbable(gadgets@, window@, g) && !region@.contains(g) implies !touches(
                    gadgets@,
                    |x: u64| region@.contains(x),
                    g,
                ) by {
                    assert(ids@.to_set().contains(g));
                    let k = choose|k: int| 0 <= k < ids@.len() && ids@[k] == g;
                    assert(absorbable(gadgets@, window@, ids@[k]));
                }
            }
        }
        settled = !changed;
    }
    proof {
        assert forall|gid: u64| absorbed(gadgets@, window@, buffer_radius as int, gid) implies #[trigger] region@.contains(gid) by {
            let chain = choose|chain: Seq<u64>| #[trigger] is_absorption_chain(gadgets@, window@, buffer_radius as int, chain, gid);
            lemma_chain_in_region(gadgets@, window@, buffer_radius as int, region@, chain, gid, chain.len() - 1);
        }
    }
    region
}

/// Selects the commit region of a window.
pub fn commit_region_of(center: u64, window: &IdSet, gadgets: &Registry<Gadget>, buffer_radius: usize) -> (region: IdSet)
    requires
        gadgets.wf(),
        forall|gid: u64| #[trigger] window@.contains(gid) ==> gadgets@.contains_key(gid),
    ensures
        forall|gid: u64| #[trigger]
            region@.contains(gid) <==> in_commit_region(gadgets@, window@, center, buffer_radius as int, gid),
{
    if buffer_radius == 0 {
        let mut region = IdSet::new();
        region.insert(center);
        return region;
    }
    let ids = window.items();
    let region = committable_gadgets(&ids, window, gadgets, buffer_radius);
    absorb_free_hops(&ids, window, gadgets, buffer_radius, region)
}

/// The check models bound to gadgets of a region.
pub open spec fn region_cids(gadgets: Map<u64, Gadget>, region: Set<u64>, cid: u64) -> bool {
    exists|gid: u64| #[trigger] region.contains(gid) && gadgets[gid].binding_cid == Some(cid)
}

/// Collects the check models bound to gadgets of a region.
pub fn committing_cids_of(region: &IdSet, gadgets: &Registry<Gadget>) -> (cids: IdSet)
    requires
        gadgets.wf(),
        forall|gid: u64| #[trigger] region@.contains(gid) ==> gadgets@.contains_key(gid),
    ensures
        forall|cid: u64| #[trigger] cids@.contains(cid) <==> region_cids(gadgets@, region@, cid),
{
    let ids = region.items();
    let mut cids = IdSet::new();
    let mut i: usize = 0;
    while i < ids.len()
        invariant
            gadgets.wf(),
            i <= ids@.len(),
            ids@.to_set() == region@,
            forall|gid: u64| #[trigger] region@.contains(gid) ==> gadgets@.contains_key(gid),
            forall|cid: u64| #[trigger] cids@.contains(cid) ==> region_cids(gadgets@, region@, cid),
            forall|k: int| 0 <= k < i && (#[trigger] gadgets@[ids@[k]]).binding_cid is Some ==> cids@.contains(gadgets@[ids@[k]].binding_cid->0),
        decreases ids@.len() - i,
    {
        let gid: u64 = ids[i];
        assert(ids@.to_set().contains(gid));
        let gadget = gadgets.get(gid).unwrap();
        if let Some(cid) = gadget.binding_cid {
            assert(region_cids(gadgets@, region@, cid)) by {
                assert(region@.contains(gid));
            }
            let ghost before = cids@;
            cids.insert(cid);
            assert forall|c: u64| #[trigger] cids@.contains(c) implies region_cids(gadgets@, region@, c) by {
                assert(c == cid || before.contains(c));
            }
        }
        i += 1;
    }
    proof {
        assert forall|cid: u64| region_cids(gadgets@, region@, cid) implies #[trigger] cids@.contains(cid) by {
            let gid = choose|gid: u64| #[trigger] region@.contains(gid) && gadgets@[gid].binding_cid == Some(cid);
            assert(ids@.to_set().contains(gid));
            let k = choose|k: int| 0 <= k < ids@.len() && ids@[k] == gid;
            assert(gadgets@[ids@[k]].binding_cid is Some);
        }
    }
    cids
}

// ---------------------------------------------------------------------------
// Laws of commit regions
// ---------------------------------------------------------------------------

/// A commit region stays inside its window.
pub proof fn law_commit_region_inside_window(
    gadgets: Map<u64, Gadget>,
    window: Set<u64>,
    center: u64,
    buffer_radius: int,
    gid: u64,
)
    requires
        window.contains(center),
        in_commit_region(gadgets, window, center, buffer_radius, gid),
    ensures
        window.contains(gid),
{
    if buffer_radius != 0 && absorbed(gadgets, window, buffer_radius, gid) {
        let chain = choose|chain: Seq<u64>| #[trigger] is_absorption_chain(gadgets, window, buffer_radius, chain, gid);
        assert(absorbable(gadgets, window, chain[chain.len() - 1]));
    }
}

/// Only gadgets that no decode has taken are committed.
pub proof fn law_commit_region_is_uncommitted(
    gadgets: Map<u64, Gadget>,
    window: Set<u64>,
    center: u64,
    buffer_radius: int,
    gid: u64,
)
    requires
        buffer_radius > 0,
        in_commit_region(gadgets, window, center, buffer_radius, gid),
    ensures
        gadgets[gid].state == GadgetState::Uncommitted,
{
    if absorbed(gadgets, window, buffer_radius, gid) {
        let chain = choose|chain: Seq<u64>| #[trigger] is_absorption_chain(gadgets, window, buffer_radius, chain, gid);
        assert(absorbable(gadgets, window, chain[chain.len() - 1]));
    }
}

/// A committed hop-counted gadget is separated from the boundary by the whole
/// buffer: every walk from the boundary to it passes `buffer_radius` hop-counted
/// gadgets first.
pub proof fn law_committed_gadget_has_full_buffer(
    gadgets: Map<u64, Gadget>,
    window: Set<u64>,
    center: u64,
    buffer_radius: int,
    gid: u64,
    walk: Seq<u64>,
)
    requires
        buffer_radius > 0,
        in_commit_region(gadgets, window, center, buffer_radius, gid),
        !gadgets[gid].is_free_hop,
        is_walk(gadgets, window, walk),
        walk.last() == gid,
        on_boundary(gadgets, window, walk[0]),
    ensures
        hops_upto(gadgets, walk, walk.len() - 1) >= buffer_radius,
{
    if absorbed(gadgets, window, buffer_radius, gid) {
        let chain = choose|chain: Seq<u64>| #[trigger] is_absorption_chain(gadgets, window, buffer_radius, chain, gid);
        assert(absorbable(gadgets, window, chain[chain.len() - 1]));
    }
    if hops_upto(gadgets, walk, walk.len() - 1) <= buffer_radius - 1 {
        assert(walk_from_boundary(gadgets, window, walk, gid, buffer_radius - 1));
    }
}

/// No free-hop gadget of the window is stranded beside the commit region or a
/// committed gadget.
pub proof fn law_no_stranded_free_hop(
    gadgets: Map<u64, Gadget>,
    window: Set<u64>,
    center: u64,
    buffer_radius: int,
    gid: u64,
)
    requires
        buffer_radius > 0,
        absorbable(gadgets, window, gid),
        touches(gadgets, |g: u64| in_commit_region(gadgets, window, center, buffer_radius, g), gid),
    ensures
        in_commit_region(gadgets, window, center, buffer_radius, gid),
{
    let region = Set::new(|g: u64| in_commit_region(gadgets, window, center, buffer_radius, g));
    let outer = |g: u64| in_commit_region(gadgets, window, center, buffer_radius, g);
    let inside = |g: u64| region.contains(g);
    let peer = choose|peer: u64| #[trigger]
        gadgets[gid].has_peer(peer) && (outer(peer) || (gadgets.contains_key(peer) && gadgets[peer].state
            == GadgetState::Committed));
    assert(outer(peer) == inside(peer));
    assert(touches(gadgets, inside, gid));
    assert forall|g: u64| #[trigger] region.contains(g) implies window.contains(g) && (committable(gadgets, window, buffer_radius, g)
        || absorbed(gadgets, window, buffer_radius, g)) by {
        if absorbed(gadgets, window, buffer_radius, g) {
            let chain = choose|chain: Seq<u64>| #[trigger] is_absorption_chain(gadgets, window, buffer_radius, chain, g);
            assert(absorbable(gadgets, window, chain[chain.len() - 1]));
        }
    }
    lemma_absorb_one(gadgets, window, buffer_radius, region, gid);
    assert(region.insert(gid).contains(gid));
    assert(!committable(gadgets, window, buffer_radius, gid));
}

/// Connections are mutual.
pub open spec fn symmetric(gadgets: Map<u64, Gadget>, window: Set<u64>) -> bool {
    forall|a: u64, b: u64|
        window.contains(a) && window.contains(b) && #[trigger] gadgets[a].has_peer(b) ==> gadgets[b].has_peer(a)
}

/// Whether a walk leads from `center` to `gid` over at most `d` hop-counted gadgets,
/// the center not counted.
pub open spec fn walk_from_center(gadgets: Map<u64, Gadget>, window: Set<u64>, walk: Seq<u64>, center: u64, gid: u64, d: int) -> bool {
    &&& is_walk(gadgets, window, walk)
    &&& walk[0] == center
    &&& walk.last() == gid
    &&& hops_upto(gadgets, walk, walk.len() as int) - hops(gadgets, center) <= d
}

proof fn lemma_hops_reverse(gadgets: Map<u64, Gadget>, walk: Seq<u64>, n: int)
    requires
        0 <= n <= walk.len(),
    ensures
        hops_upto(gadgets, walk.reverse(), walk.len() as int) == hops_upto(gadgets, walk.reverse(), walk.len() - n)
            + hops_upto(gadgets, walk, n),
    decreases n,
{
    if n > 0 {
        lemma_hops_reverse(gadgets, walk, n - 1);
        assert(walk.reverse()[walk.len() - n] == walk[n - 1]);
    }
}

/// The center is committed if every gadget closer to it than the buffer has all its
/// connections inside the window, which is what exploring the mandatory zone
/// establishes.
pub proof fn law_center_is_committable(gadgets: Map<u64, Gadget>, window: Set<u64>, center: u64, buffer_radius: int)
    requires
        buffer_radius > 0,
        window.contains(center),
        !gadgets[center].is_free_hop,
        gadgets[center].state == GadgetState::Uncommitted,
        symmetric(gadgets, window),
        forall|gid: u64, walk: Seq<u64>| #[trigger]
            walk_from_center(gadgets, window, walk, center, gid, buffer_radius - 1) ==> !on_boundary(gadgets, window, gid),
    ensures
        in_commit_region(gadgets, window, center, buffer_radius, center),
{
    if near_boundary(gadgets, window, center, buffer_radius - 1) {
        let walk = choose|walk: Seq<u64>| #[trigger] walk_from_boundary(gadgets, window, walk, center, buffer_radius - 1);
        let back = walk.reverse();
        assert forall|i: int| 0 <= i < back.len() - 1 implies gadgets[#[trigger] back[i]].has_peer(back[i + 1]) by {
            let j = walk.len() - 2 - i;
            assert(gadgets[walk[j]].has_peer(walk[j + 1]));
            assert(window.contains(walk[j]) && window.contains(walk[j + 1]));
        }
        assert forall|i: int| 0 <= i < back.len() implies window.contains(#[trigger] back[i]) by {
            assert(window.contains(walk[walk.len() - 1 - i]));
        }
        lemma_hops_reverse(gadgets, walk, walk.len() as int);
        assert(hops_upto(gadgets, walk, walk.len() as int) == hops_upto(gadgets, walk, walk.len() - 1) + hops(gadgets, center));
        assert(back.last() == walk[0]);
        assert(walk_from_center(gadgets, window, back, center, walk[0], buffer_radius - 1));
    }
}

// ---------------------------------------------------------------------------
// Decoder windows
// ---------------------------------------------------------------------------

/// What a walk from `walk[0]` to `walk[n]` counts: the gadgets entered on the way.
pub open spec fn entered(gadgets: Map<u64, Gadget>, walk: Seq<u64>, n: int) -> int {
    hops_upto(gadgets, walk, n + 1) - hops(gadgets, walk[0])
}

/// A walk that shows that the decoder needs `gid`: it starts in the commit region,
/// stays in the explored window, and ends within the buffer.
pub open spec fn is_buffer_walk(
    gadgets: Map<u64, Gadget>,
    explored: Set<u64>,
    region: Set<u64>,
    buffer_radius: int,
    walk: Seq<u64>,
    gid: u64,
) -> bool {
    &&& walk.len() > 0
    &&& walk.last() == gid
    &&& region.contains(walk[0])
    &&& forall|i: int| 1 <= i < walk.len() ==> explored.contains(#[trigger] walk[i])
    &&& forall|i: int| 0 <= i < walk.len() - 1 ==> gadgets[#[trigger] walk[i]].has_peer(walk[i + 1])
    &&& entered(gadgets, walk, walk.len() - 1) <= buffer_radius
}

/// The gadgets that the decoder needs: the commit region and its buffer.
pub open spec fn in_decoder_window(
    gadgets: Map<u64, Gadget>,
    explored: Set<u64>,
    region: Set<u64>,
    buffer_radius: int,
    gid: u64,
) -> bool {
    exists|walk: Seq<u64>| #[trigger] is_buffer_walk(gadgets, explored, region, buffer_radius, walk, gid)
}

/// A buffer walk of a given length.
spec fn buffered_at(
    gadgets: Map<u64, Gadget>,
    explored: Set<u64>,
    region: Set<u64>,
    buffer_radius: int,
    gid: u64,
    d: int,
) -> bool {
    exists|walk: Seq<u64>| #[trigger]
        is_buffer_walk(gadgets, explored, region, buffer_radius, walk, gid) && entered(gadgets, walk, walk.len() - 1) <= d
}

/// No connection of `gid` could lower a label.
spec fn buffer_relaxed(
    gadgets: Map<u64, Gadget>,
    explored: Set<u64>,
    buffer_radius: int,
    dist: Map<u64, usize>,
    gid: u64,
) -> bool {
    forall|peer: u64|
        explored.contains(peer) && #[trigger] gadgets[gid].has_peer(peer) && dist[gid] + hops(gadgets, peer) <= buffer_radius
            ==> dist.contains_key(peer) && dist[peer] <= dist[gid] + hops(gadgets, peer)
}

/// What the search outward from the commit region knows.
spec fn buffer_search(
    gadgets: Map<u64, Gadget>,
    explored: Set<u64>,
    region: Set<u64>,
    buffer_radius: int,
    dist: Map<u64, usize>,
) -> bool {
    &&& forall|gid: u64| #[trigger] region.contains(gid) ==> dist.contains_key(gid) && dist[gid] == 0
    &&& forall|gid: u64| #[trigger]
        dist.contains_key(gid) ==> (region.contains(gid) || explored.contains(gid)) && dist[gid] <= buffer_radius
            && buffered_at(gadgets, explored, region, buffer_radius, gid, dist[gid] as int)
}

/// What holds while the connections of `current` are visited.
#[verifier::opaque]
spec fn buffer_visiting(
    gadgets: Map<u64, Gadget>,
    explored: Set<u64>,
    region: Set<u64>,
    buffer_radius: int,
    dist: Map<u64, usize>,
    queue: Seq<u64>,
    current: u64,
    my: usize,
) -> bool {
    &&& buffer_search(gadgets, explored, region, buffer_radius, dist)
    &&& dist.contains_key(current)
    &&& dist[current] == my
    &&& forall|gid: u64| #[trigger]
        dist.contains_key(gid) && gid != current ==> queue.contains(gid) || buffer_relaxed(
            gadgets,
            explored,
            buffer_radius,
            dist,
            gid,
        )
    &&& forall|gid: u64| #[trigger] queue.contains(gid) ==> dist.contains_key(gid)
}

proof fn lemma_extend_buffer_walk(
    gadgets: Map<u64, Gadget>,
    explored: Set<u64>,
    region: Set<u64>,
    buffer_radius: int,
    from: u64,
    peer: u64,
    d: int,
)
    requires
        buffered_at(gadgets, explored, region, buffer_radius, from, d),
        region.contains(from) ==> 0 <= d,
        explored.contains(peer),
        gadgets[from].has_peer(peer),
        d + hops(gadgets, peer) <= buffer_radius,
    ensures
        buffered_at(gadgets, explored, region, buffer_radius, peer, d + hops(gadgets, peer)),
{
    let walk = if region.contains(from) {
        seq![from]
    } else {
        choose|walk: Seq<u64>| #[trigger]
            is_buffer_walk(gadgets, explored, region, buffer_radius, walk, from) && entered(gadgets, walk, walk.len() - 1) <= d
    };
    if region.contains(from) {
        reveal_with_fuel(hops_upto, 3);
        assert(entered(gadgets, walk, 0) == 0);
        lemma_region_walk(gadgets, explored, region, buffer_radius, from, d);
    }
    let longer = walk.push(peer);
    assert forall|i: int| 0 <= i < longer.len() - 1 implies gadgets[#[trigger] longer[i]].has_peer(longer[i + 1]) by {
        if i < walk.len() - 1 {
            assert(gadgets[walk[i]].has_peer(walk[i + 1]));
        } else {
            assert(longer[i] == from);
        }
    }
    assert forall|i: int| 1 <= i < longer.len() implies explored.contains(#[trigger] longer[i]) by {
        if i < walk.len() {
            assert(explored.contains(walk[i]));
        }
    }
    assert forall|i: int| 0 <= i < walk.len() implies #[trigger] entered(gadgets, longer, i) == entered(gadgets, walk, i) by {
        lemma_hops_same(gadgets, walk, longer, i + 1);
        assert(longer[0] == walk[0]);
    }
    assert(entered(gadgets, longer, longer.len() - 1) == entered(gadgets, longer, walk.len() - 1) + hops(gadgets, peer)) by {
        assert(longer[walk.len() as int] == peer);
    }
    assert(is_buffer_walk(gadgets, explored, region, buffer_radius, longer, peer));
}

/// A gadget of the region needs no walk.
proof fn lemma_region_walk(
    gadgets: Map<u64, Gadget>,
    explored: Set<u64>,
    region: Set<u64>,
    buffer_radius: int,
    gid: u64,
    d: int,
)
    requires
        region.contains(gid),
        0 <= d,
        0 <= buffer_radius,
    ensures
        is_buffer_walk(gadgets, explored, region, buffer_radius, seq![gid], gid),
        buffered_at(gadgets, explored, region, buffer_radius, gid, d),
{
    let walk = seq![gid];
    reveal_with_fuel(hops_upto, 3);
    assert(entered(gadgets, walk, 0) == 0);
    assert(is_buffer_walk(gadgets, explored, region, buffer_radius, walk, gid));
}

proof fn lemma_buffer_complete(
    gadgets: Map<u64, Gadget>,
    explored: Set<u64>,
    region: Set<u64>,
    buffer_radius: int,
    dist: Map<u64, usize>,
    walk: Seq<u64>,
    gid: u64,
    n: int,
)
    requires
        is_buffer_walk(gadgets, explored, region, buffer_radius, walk, gid),
        0 <= n < walk.len(),
        buffer_search(gadgets, explored, region, buffer_radius, dist),
        forall|g: u64| #[trigger] dist.contains_key(g) ==> buffer_relaxed(
            gadgets,
            explored,
            buffer_radius,
            dist,
            g,
        ),
    ensures
        dist.contains_key(walk[n]),
        dist[walk[n]] <= entered(gadgets, walk, n),
    decreases n,
{
    if n == 0 {
        reveal_with_fuel(hops_upto, 3);
        assert(entered(gadgets, walk, 0) == 0);
    } else {
        lemma_buffer_complete(gadgets, explored, region, buffer_radius, dist, walk, gid, n - 1);
        let from = walk[n - 1];
        assert(gadgets[walk[n - 1]].has_peer(walk[n - 1 + 1]));
        assert(explored.contains(walk[n]));
        assert(entered(gadgets, walk, n) == entered(gadgets, walk, n - 1) + hops(gadgets, walk[n]));
        assert(buffer_relaxed(gadgets, explored, buffer_radius, dist, from));
        lemma_entered_grows(gadgets, walk, n, walk.len() - 1);
    }
}

/// A longer walk enters no fewer gadgets.
proof fn lemma_entered_grows(gadgets: Map<u64, Gadget>, walk: Seq<u64>, a: int, b: int)
    requires
        0 <= a <= b,
    ensures
        entered(gadgets, walk, a) <= entered(gadgets, walk, b),
    decreases b - a,
{
    if a < b {
        lemma_entered_grows(gadgets, walk, a, b - 1);
    }
}

/// Lowering the label of a peer keeps what the search knows.
proof fn lemma_buffer_visit_keeps(
    gadgets: Map<u64, Gadget>,
    explored: Set<u64>,
    region: Set<u64>,
    buffer_radius: int,
    before: Map<u64, usize>,
    queue_before: Seq<u64>,
    after: Map<u64, usize>,
    queue_after: Seq<u64>,
    current: u64,
    my: usize,
    peer: u64,
    way: usize,
)
    requires
        0 <= buffer_radius < usize::MAX,
        buffer_visiting(gadgets, explored, region, buffer_radius, before, queue_before, current, my),
        explored.contains(peer),
        gadgets[current].has_peer(peer),
        way == my + hops(gadgets, peer),
        way <= buffer_radius,
        way < label(before, peer),
        after == before.insert(peer, way),
        queue_after.contains(peer),
        forall|gid: u64| queue_before.contains(gid) ==> #[trigger] queue_after.contains(gid),
        forall|gid: u64| #[trigger] queue_after.contains(gid) ==> queue_before.contains(gid) || gid == peer,
    ensures
        buffer_visiting(gadgets, explored, region, buffer_radius, after, queue_after, current, my),
{
    reveal(buffer_visiting);
    lemma_extend_buffer_walk(gadgets, explored, region, buffer_radius, current, peer, my as int);
    assert(peer != current);
    assert(!region.contains(peer));
    assert forall|gid: u64| #[trigger] after.contains_key(gid) && gid != current implies queue_after.contains(gid)
        || buffer_relaxed(gadgets, explored, buffer_radius, after, gid) by {
        if gid != peer {
            assert(before.contains_key(gid));
            if buffer_relaxed(gadgets, explored, buffer_radius, before, gid) {
                assert forall|p: u64| explored.contains(p) && #[trigger] gadgets[gid].has_peer(p) && after[gid] + hops(gadgets, p) <= buffer_radius implies after.contains_key(p)
                    && after[p] <= after[gid] + hops(gadgets, p) by {
                    assert(before.contains_key(p) && before[p] <= before[gid] + hops(gadgets, p));
                }
            }
        }
    }
}

/// Lowers the label of a peer and queues it, if the way through the current gadget is
/// shorter and within the buffer.
fn visit_outward(
    gadgets: &Registry<Gadget>,
    explored: &IdSet,
    region: &IdSet,
    buffer_radius: usize,
    dist: &mut IdMap,
    queue: &mut VecDeque<u64>,
    current: u64,
    my: usize,
    peer: u64,
    Ghost(ids): Ghost<Seq<u64>>,
)
    requires
        gadgets.wf(),
        buffer_radius < usize::MAX,
        ids.no_duplicates(),
        ids.to_set() == explored@,
        forall|gid: u64| #[trigger] explored@.contains(gid) ==> gadgets@.contains_key(gid),
        gadgets@[current].has_peer(peer),
        buffer_visiting(gadgets@, explored@, region@, buffer_radius as int, old(dist)@, old(queue)@, current, my),
    ensures
        buffer_visiting(gadgets@, explored@, region@, buffer_radius as int, final(dist)@, final(queue)@, current, my),
        explored@.contains(peer) && my + hops(gadgets@, peer) <= buffer_radius ==> final(dist)@.contains_key(peer)
            && final(dist)@[peer] <= my + hops(gadgets@, peer),
        forall|gid: u64| #[trigger]
            old(dist)@.contains_key(gid) ==> final(dist)@.contains_key(gid) && final(dist)@[gid] <= old(dist)@[gid],
        label_sum(final(dist)@, ids, ids.len() as int) <= label_sum(old(dist)@, ids, ids.len() as int),
        label_sum(final(dist)@, ids, ids.len() as int) == label_sum(old(dist)@, ids, ids.len() as int) ==> final(queue)@
            == old(queue)@,
{
    if !explored.contains(peer) {
        return;
    }
    let gadget = gadgets.get(peer).unwrap();
    let step: usize = if gadget.is_free_hop { 0 } else { 1 };
    assert(my <= buffer_radius) by {
        reveal(buffer_visiting);
    }
    let way: usize = my + step;
    if way > buffer_radius {
        return;
    }
    let known: usize = match dist.get(peer) {
        Some(d) => d,
        None => usize::MAX,
    };
    if way < known {
        let ghost before = queue@;
        let ghost dist0 = dist@;
        proof {
            assert(ids.to_set().contains(peer));
            let at = choose|at: int| 0 <= at < ids.len() && ids[at] == peer;
            lemma_label_sum_drops(dist@, ids, ids.len() as int, at, way);
        }
        dist.insert(peer, way);
        if gadget.is_free_hop {
            queue.push_front(peer);
            proof {
                lemma_push_front(before, queue@, peer);
            }
        } else {
            queue.push_back(peer);
            proof {
                lemma_push_back(before, queue@, peer);
            }
        }
        proof {
            lemma_buffer_visit_keeps(
                gadgets@,
                explored@,
                region@,
                buffer_radius as int,
                dist0,
                before,
                dist@,
                queue@,
                current,
                my,
                peer,
                way,
            );
        }
    }
}

/// Visits every connection of the current gadget.
fn expand_outward(
    gadgets: &Registry<Gadget>,
    explored: &IdSet,
    region: &IdSet,
    buffer_radius: usize,
    dist: &mut IdMap,
    queue: &mut VecDeque<u64>,
    current: u64,
    my: usize,
    Ghost(ids): Ghost<Seq<u64>>,
)
    requires
        gadgets.wf(),
        buffer_radius < usize::MAX,
        gadgets@.contains_key(current),
        ids.no_duplicates(),
        ids.to_set() == explored@,
        forall|gid: u64| #[trigger] explored@.contains(gid) ==> gadgets@.contains_key(gid),
        buffer_visiting(gadgets@, explored@, region@, buffer_radius as int, old(dist)@, old(queue)@, current, my),
    ensures
        buffer_visiting(gadgets@, explored@, region@, buffer_radius as int, final(dist)@, final(queue)@, current, my),
        buffer_relaxed(gadgets@, explored@, buffer_radius as int, final(dist)@, current),
        label_sum(final(dist)@, ids, ids.len() as int) <= label_sum(old(dist)@, ids, ids.len() as int),
        label_sum(final(dist)@, ids, ids.len() as int) == label_sum(old(dist)@, ids, ids.len() as int) ==> final(queue)@
            == old(queue)@,
{
    let gadget = gadgets.get(current).unwrap();
    let ghost done = |dist: Map<u64, usize>, peer: u64|
        explored@.contains(peer) && my + hops(gadgets@, peer) <= buffer_radius ==> dist.contains_key(peer) && dist[peer]
            <= my + hops(gadgets@, peer);
    let mut i: usize = 0;
    while i < gadget.instance.connectors.len()
        invariant
            gadgets.wf(),
            buffer_radius < usize::MAX,
            ids.no_duplicates(),
            ids.to_set() == explored@,
            forall|gid: u64| #[trigger] explored@.contains(gid) ==> gadgets@.contains_key(gid),
            *gadget == gadgets@[current],
            i <= gadget.instance.connectors@.len(),
            buffer_visiting(gadgets@, explored@, region@, buffer_radius as int, dist@, queue@, current, my),
            done == (|dist: Map<u64, usize>, peer: u64|
                explored@.contains(peer) && my + hops(gadgets@, peer) <= buffer_radius ==> dist.contains_key(peer)
                    && dist[peer] <= my + hops(gadgets@, peer)),
            forall|k: int| 0 <= k < i ==> done(dist@, (#[trigger] gadget.instance.connectors@[k]).gid),
            label_sum(dist@, ids, ids.len() as int) <= label_sum(old(dist)@, ids, ids.len() as int),
            label_sum(dist@, ids, ids.len() as int) == label_sum(old(dist)@, ids, ids.len() as int) ==> queue@ == old(queue)@,
        decreases gadget.instance.connectors@.len() - i,
    {
        let peer: u64 = gadget.instance.connectors[i].gid;
        let ghost dist1 = dist@;
        assert(gadgets@[current].has_peer(peer)) by {
            assert(gadget.instance.connectors@[i as int].gid == peer);
        }
        visit_outward(gadgets, explored, region, buffer_radius, dist, queue, current, my, peer, Ghost(ids));
        proof {
            assert forall|k: int| 0 <= k < i + 1 implies done(dist@, (#[trigger] gadget.instance.connectors@[k]).gid) by {
                if k < i {
                    assert(done(dist1, gadget.instance.connectors@[k].gid));
                }
            }
        }
        i += 1;
    }
    let mut i: usize = 0;
    while i < gadget.outputs.len()
        invariant
            gadgets.wf(),
            buffer_radius < usize::MAX,
            ids.no_duplicates(),
            ids.to_set() == explored@,
            forall|gid: u64| #[trigger] explored@.contains(gid) ==> gadgets@.contains_key(gid),
            *gadget == gadgets@[current],
            i <= gadget.outputs@.len(),
            buffer_visiting(gadgets@, explored@, region@, buffer_radius as int, dist@, queue@, current, my),
            done == (|dist: Map<u64, usize>, peer: u64|
                explored@.contains(peer) && my + hops(gadgets@, peer) <= buffer_radius ==> dist.contains_key(peer)
                    && dist[peer] <= my + hops(gadgets@, peer)),
            forall|k: int| 0 <= k < gadget.instance.connectors@.len() ==> done(dist@, (#[trigger] gadget.instance.connectors@[k]).gid),
            forall|k: int| 0 <= k < i && (#[trigger] gadget.outputs@[k]) is Some ==> done(dist@, gadget.outputs@[k]->0.gid),
            label_sum(dist@, ids, ids.len() as int) <= label_sum(old(dist)@, ids, ids.len() as int),
            label_sum(dist@, ids, ids.len() as int) == label_sum(old(dist)@, ids, ids.len() as int) ==> queue@ == old(queue)@,
        decreases gadget.outputs@.len() - i,
    {
        if let Some(c) = gadget.outputs[i] {
            let ghost dist1 = dist@;
            assert(gadgets@[current].has_peer(c.gid)) by {
                assert(gadget.outputs@[i as int] is Some);
            }
            visit_outward(gadgets, explored, region, buffer_radius, dist, queue, current, my, c.gid, Ghost(ids));
            proof {
                assert forall|k: int| 0 <= k < gadget.instance.connectors@.len() implies done(dist@, (#[trigger] gadget.instance.connectors@[k]).gid) by {
                    assert(done(dist1, gadget.instance.connectors@[k].gid));
                }
                assert forall|k: int| 0 <= k < i + 1 && (#[trigger] gadget.outputs@[k]) is Some implies done(dist@, gadget.outputs@[k]->0.gid) by {
                    if k < i {
                        assert(done(dist1, gadget.outputs@[k]->0.gid));
                    }
                }
            }
        }
        i += 1;
    }
    proof {
        reveal(buffer_visiting);
        assert forall|peer: u64| explored@.contains(peer) && #[trigger] gadgets@[current].has_peer(peer) && dist@[current] + hops(gadgets@, peer) <= buffer_radius implies dist@.contains_key(peer)
            && dist@[peer] <= dist@[current] + hops(gadgets@, peer) by {
            if exists|k: int| 0 <= k < gadget.instance.connectors@.len() && (#[trigger] gadget.instance.connectors@[k]).gid == peer {
                let k = choose|k: int| 0 <= k < gadget.instance.connectors@.len() && (#[trigger] gadget.instance.connectors@[k]).gid == peer;
                assert(done(dist@, gadget.instance.connectors@[k].gid));
            } else {
                let k = choose|k: int| 0 <= k < gadget.outputs@.len() && (#[trigger] gadget.outputs@[k]) is Some && gadget.outputs@[k]->0.gid == peer;
                assert(done(dist@, gadget.outputs@[k]->0.gid));
            }
        }
    }
}

/// Trims an explored window to what the decoder needs: the commit region and the
/// gadgets within the buffer around it.
pub fn decoder_window_of(explored: &IdSet, region: &IdSet, gadgets: &Registry<Gadget>, buffer_radius: usize) -> (window:
    IdSet)
    requires
        gadgets.wf(),
        buffer_radius < usize::MAX,
        forall|gid: u64| #[trigger] explored@.contains(gid) ==> gadgets@.contains_key(gid),
        forall|gid: u64| #[trigger] region@.contains(gid) ==> gadgets@.contains_key(gid),
    ensures
        forall|gid: u64| #[trigger]
            window@.contains(gid) <==> in_decoder_window(gadgets@, explored@, region@, buffer_radius as int, gid),
{
    let ids = explored.items();
    let seeds = region.items();
    let ghost all = ids@;
    let ghost r = buffer_radius as int;
    let mut dist = IdMap::new();
    let mut queue: VecDeque<u64> = VecDeque::new();
    let mut i: usize = 0;
    while i < seeds.len()
        invariant
            i <= seeds@.len(),
            r == buffer_radius,
            seeds@.to_set() == region@,
            forall|gid: u64| #[trigger] dist@.contains_key(gid) ==> region@.contains(gid) && dist@[gid] == 0,
            forall|k: int| 0 <= k < i ==> dist@.contains_key(#[trigger] seeds@[k]),
            forall|gid: u64| #[trigger] dist@.contains_key(gid) <==> queue@.contains(gid),
        decreases seeds@.len() - i,
    {
        let gid: u64 = seeds[i];
        let ghost before = queue@;
        let ghost dist0 = dist@;
        assert(seeds@.to_set().contains(gid));
        dist.insert(gid, 0);
        queue.push_back(gid);
        proof {
            assert(queue@[before.len() as int] == gid);
            assert forall|g: u64| #[trigger] dist@.contains_key(g) <==> queue@.contains(g) by {
                if queue@.contains(g) {
                    let k = choose|k: int| 0 <= k < queue@.len() && queue@[k] == g;
                    if k < before.len() {
                        assert(before[k] == g);
                        assert(before.contains(g));
                        assert(dist0.contains_key(g));
                    }
                }
                if dist0.contains_key(g) {
                    assert(before.contains(g));
                    let k = choose|k: int| 0 <= k < before.len() && before[k] == g;
                    assert(queue@[k] == g);
                }
            }
        }
        i += 1;
    }
    proof {
        assert forall|gid: u64| #[trigger] region@.contains(gid) implies dist@.contains_key(gid) && dist@[gid] == 0 by {
            assert(seeds@.to_set().contains(gid));
            let k = choose|k: int| 0 <= k < seeds@.len() && seeds@[k] == gid;
            assert(dist@.contains_key(seeds@[k]));
        }
        assert forall|gid: u64| #[trigger] dist@.contains_key(gid) implies buffered_at(gadgets@, explored@, region@, r, gid, dist@[gid] as int) by {
            lemma_region_walk(gadgets@, explored@, region@, r, gid, 0);
        }
    }
    while queue.len() > 0
        invariant
            gadgets.wf(),
            r == buffer_radius,
            buffer_radius < usize::MAX,
            all == ids@,
            all.no_duplicates(),
            all.to_set() == explored@,
            forall|gid: u64| #[trigger] explored@.contains(gid) ==> gadgets@.contains_key(gid),
            forall|gid: u64| #[trigger] region@.contains(gid) ==> gadgets@.contains_key(gid),
            buffer_search(gadgets@, explored@, region@, r, dist@),
            forall|gid: u64| #[trigger]
                dist@.contains_key(gid) ==> queue@.contains(gid) || buffer_relaxed(
                    gadgets@,
                    explored@,
                    r,
                    dist@,
                    gid,
                ),
            forall|gid: u64| #[trigger] queue@.contains(gid) ==> dist@.contains_key(gid),
        decreases label_sum(dist@, all, all.len() as int), queue@.len(),
    {
        let ghost queue0 = queue@;
        proof {
            lemma_label_sum_nonnegative(dist@, all, all.len() as int);
        }
        let current: u64 = queue.pop_front().unwrap();
        let ghost popped = queue@;
        proof {
            assert(queue0[0] == current);
            assert(queue0.contains(current));
            assert(dist@.contains_key(current));
            assert forall|gid: u64| #[trigger] queue0.contains(gid) && gid != current implies popped.contains(gid) by {
                let k = choose|k: int| 0 <= k < queue0.len() && queue0[k] == gid;
                assert(popped[k - 1] == gid);
            }
            assert forall|gid: u64| #[trigger] popped.contains(gid) implies queue0.contains(gid) by {
                let k = choose|k: int| 0 <= k < popped.len() && popped[k] == gid;
                assert(queue0[k + 1] == gid);
            }
        }
        let my: usize = dist.get(current).unwrap();
        proof {
            reveal(buffer_visiting);
        }
        expand_outward(gadgets, explored, region, buffer_radius, &mut dist, &mut queue, current, my, Ghost(all));
        proof {
            lemma_label_sum_nonnegative(dist@, all, all.len() as int);
        }
    }
    let mut window = IdSet::new();
    let mut i: usize = 0;
    proof {
        assert(queue@ =~= Seq::<u64>::empty());
    }
    while i < seeds.len()
        invariant
            i <= seeds@.len(),
            seeds@.to_set() == region@,
            buffer_search(gadgets@, explored@, region@, r, dist@),
            forall|gid: u64| #[trigger] window@.contains(gid) ==> dist@.contains_key(gid),
            forall|k: int| 0 <= k < i ==> window@.contains(#[trigger] seeds@[k]),
        decreases seeds@.len() - i,
    {
        assert(seeds@.to_set().contains(seeds@[i as int]));
        let ghost before = window@;
        window.insert(seeds[i]);
        assert forall|gid: u64| #[trigger] window@.contains(gid) implies dist@.contains_key(gid) by {
            assert(gid == seeds@[i as int] || before.contains(gid));
        }
        i += 1;
    }
    let mut i: usize = 0;
    while i < ids.len()
        invariant
            i <= ids@.len(),
            seeds@.to_set() == region@,
            all == ids@,
            forall|gid: u64| #[trigger] window@.contains(gid) ==> dist@.contains_key(gid),
            forall|k: int| 0 <= k < seeds@.len() ==> window@.contains(#[trigger] seeds@[k]),
            forall|k: int| 0 <= k < i && dist@.contains_key(#[trigger] all[k]) ==> window@.contains(all[k]),
        decreases ids@.len() - i,
    {
        if dist.get(ids[i]).is_some() {
            let ghost before = window@;
            window.insert(ids[i]);
            assert forall|gid: u64| #[trigger] window@.contains(gid) implies dist@.contains_key(gid) by {
                assert(gid == ids@[i as int] || before.contains(gid));
            }
        }
        i += 1;
    }
    proof {
        assert forall|gid: u64| #[trigger] window@.contains(gid) <==> in_decoder_window(gadgets@, explored@, region@, r, gid) by {
            if in_decoder_window(gadgets@, explored@, region@, r, gid) {
                let walk = choose|walk: Seq<u64>| #[trigger] is_buffer_walk(gadgets@, explored@, region@, r, walk, gid);
                lemma_buffer_complete(gadgets@, explored@, region@, r, dist@, walk, gid, walk.len() - 1);
                assert(dist@.contains_key(gid));
                if region@.contains(gid) {
                    assert(seeds@.to_set().contains(gid));
                    let k = choose|k: int| 0 <= k < seeds@.len() && seeds@[k] == gid;
                    assert(window@.contains(seeds@[k]));
                } else {
                    assert(all.to_set().contains(gid));
                    let k = choose|k: int| 0 <= k < all.len() && all[k] == gid;
                    assert(window@.contains(all[k]));
                }
            }
            if window@.contains(gid) {
                assert(dist@.contains_key(gid));
                let walk = choose|walk: Seq<u64>| #[trigger]
                    is_buffer_walk(gadgets@, explored@, region@, r, walk, gid) && entered(gadgets@, walk, walk.len() - 1) <= dist@[gid];
                assert(is_buffer_walk(gadgets@, explored@, region@, r, walk, gid));
            }
        }
    }
    window
}

/// A decoder window holds its whole commit region, and nothing outside the explored
/// window besides.
pub proof fn law_decoder_window_bounds(
    gadgets: Map<u64, Gadget>,
    explored: Set<u64>,
    region: Set<u64>,
    buffer_radius: int,
    gid: u64,
)
    requires
        0 <= buffer_radius,
    ensures
        region.contains(gid) ==> in_decoder_window(gadgets, explored, region, buffer_radius, gid),
        in_decoder_window(gadgets, explored, region, buffer_radius, gid) ==> region.contains(gid) || explored.contains(gid),
{
    if region.contains(gid) {
        lemma_region_walk(gadgets, explored, region, buffer_radius, gid, 0);
    }
    if in_decoder_window(gadgets, explored, region, buffer_radius, gid) {
        let walk = choose|walk: Seq<u64>| #[trigger] is_buffer_walk(gadgets, explored, region, buffer_radius, walk, gid);
        if walk.len() > 1 {
            assert(explored.contains(walk[walk.len() - 1]));
        }
    }
}

/// A walk is as long as it has gadgets that are not free hops.
pub proof fn law_walk_counts_measuring_gadgets(gadgets: Map<u64, Gadget>, walk: Seq<u64>, n: int)
    requires
        0 <= n <= walk.len(),
    ensures
        hops_upto(gadgets, walk, n) == walk.take(n).filter(|g: u64| !gadgets[g].is_free_hop).len(),
    decreases n,
{
    reveal(Seq::filter);
    if n > 0 {
        law_walk_counts_measuring_gadgets(gadgets, walk, n - 1);
        assert(walk.take(n).drop_last() =~= walk.take(n - 1));
        assert(walk.take(n).last() == walk[n - 1]);
    } else {
        assert(walk.take(n) =~= Seq::<u64>::empty());
    }
}

/// A gadget is off the boundary exactly if all its outputs are connected and all its
/// connections lead to gadgets of the window.
pub proof fn law_inner_gadget_has_all_peers_inside(gadgets: Map<u64, Gadget>, window: Set<u64>, gid: u64)
    ensures
        !on_boundary(gadgets, window, gid) <==> {
            &&& forall|i: int|
                0 <= i < gadgets[gid].instance.connectors@.len() ==> window.contains(
                    (#[trigger] gadgets[gid].instance.connectors@[i]).gid,
                )
            &&& forall|i: int|
                0 <= i < gadgets[gid].outputs@.len() ==> (#[trigger] gadgets[gid].outputs@[i]) is Some && window.contains(
                    gadgets[gid].outputs@[i]->0.gid,
                )
        },
{
    if !on_boundary(gadgets, window, gid) {
        assert forall|i: int| 0 <= i < gadgets[gid].outputs@.len() implies (#[trigger] gadgets[gid].outputs@[i]) is Some
            && window.contains(gadgets[gid].outputs@[i]->0.gid) by {
            assert(!(gadgets[gid].outputs@[i] matches Some(c) ==> !window.contains(c.gid)));
        }
    }
}

/// Without a buffer the center alone is committed.
pub proof fn law_without_buffer_the_center_is_committed(gadgets: Map<u64, Gadget>, window: Set<u64>, center: u64, gid: u64)
    ensures
        in_commit_region(gadgets, window, center, 0, gid) <==> gid == center,
{
}

/// An uncommitted gadget that measures is committed if every walk from the boundary to it
/// has a full buffer before it.
pub proof fn law_fully_buffered_gadget_is_committed(
    gadgets: Map<u64, Gadget>,
    window: Set<u64>,
    center: u64,
    buffer_radius: int,
    gid: u64,
)
    requires
        buffer_radius > 0,
        window.contains(gid),
        !gadgets[gid].is_free_hop,
        gadgets[gid].state == GadgetState::Uncommitted,
        forall|walk: Seq<u64>| #[trigger]
            is_walk(gadgets, window, walk) && walk.last() == gid && on_boundary(gadgets, window, walk[0]) ==> hops_upto(
                gadgets,
                walk,
                walk.len() - 1,
            ) >= buffer_radius,
    ensures
        in_commit_region(gadgets, window, center, buffer_radius, gid),
{
    if near_boundary(gadgets, window, gid, buffer_radius - 1) {
        let walk = choose|walk: Seq<u64>| #[trigger] walk_from_boundary(gadgets, window, walk, gid, buffer_radius - 1);
        assert(is_walk(gadgets, window, walk));
    }
}

/// A free hop is committed only next to something committed: it is connected to a gadget of
/// the region or to a committed one.
pub proof fn law_absorbed_free_hop_is_attached(
    gadgets: Map<u64, Gadget>,
    window: Set<u64>,
    center: u64,
    buffer_radius: int,
    gid: u64,
) -> (peer: u64)
    requires
        buffer_radius > 0,
        in_commit_region(gadgets, window, center, buffer_radius, gid),
        gadgets[gid].is_free_hop,
    ensures
        gadgets[gid].has_peer(peer),
        in_commit_region(gadgets, window, center, buffer_radius, peer) || (gadgets.contains_key(peer) && gadgets[peer].state
            == GadgetState::Committed),
{
    let chain = choose|chain: Seq<u64>| #[trigger] is_absorption_chain(gadgets, window, buffer_radius, chain, gid);
    let region = |g: u64| committable(gadgets, window, buffer_radius, g);
    if chain.len() == 1 {
        assert(touches(gadgets, region, chain[0]));
        choose|peer: u64| #[trigger]
            gadgets[gid].has_peer(peer) && (region(peer) || (gadgets.contains_key(peer) && gadgets[peer].state
                == GadgetState::Committed))
    } else {
        let shorter = chain.drop_last();
        let peer = shorter.last();
        assert(is_absorption_chain(gadgets, window, buffer_radius, shorter, peer)) by {
            assert forall|i: int| 0 <= i < shorter.len() implies absorbable(gadgets, window, #[trigger] shorter[i]) by {
                assert(absorbable(gadgets, window, chain[i]));
            }
            assert forall|i: int| 0 <= i < shorter.len() - 1 implies gadgets[#[trigger] shorter[i + 1]].has_peer(shorter[i]) by {
                assert(gadgets[chain[i + 1]].has_peer(chain[i]));
            }
            assert(shorter[0] == chain[0]);
        }
        assert(gadgets[chain[chain.len() - 2 + 1]].has_peer(chain[chain.len() - 2]));
        peer
    }
}

/// A gadget is in the decoder window if a walk leads to it from the commit region, inside
/// what is explored, that enters no more measuring gadgets than the buffer has.
pub proof fn law_buffer_walk_leads_into_the_decoder_window(
    gadgets: Map<u64, Gadget>,
    explored: Set<u64>,
    region: Set<u64>,
    buffer_radius: int,
    walk: Seq<u64>,
)
    requires
        walk.len() > 0,
        region.contains(walk[0]),
        forall|i: int| 1 <= i < walk.len() ==> explored.contains(#[trigger] walk[i]),
        forall|i: int| 0 <= i < walk.len() - 1 ==> gadgets[#[trigger] walk[i]].has_peer(walk[i + 1]),
        walk.skip(1).filter(|g: u64| !gadgets[g].is_free_hop).len() <= buffer_radius,
    ensures
        in_decoder_window(gadgets, explored, region, buffer_radius, walk.last()),
{
    lemma_entered_counts(gadgets, walk);
    assert(is_buffer_walk(gadgets, explored, region, buffer_radius, walk, walk.last()));
}

/// Every gadget of the decoder window has such a walk.
pub proof fn law_decoder_window_is_within_the_buffer(
    gadgets: Map<u64, Gadget>,
    explored: Set<u64>,
    region: Set<u64>,
    buffer_radius: int,
    gid: u64,
) -> (walk: Seq<u64>)
    requires
        in_decoder_window(gadgets, explored, region, buffer_radius, gid),
    ensures
        walk.len() > 0,
        walk.last() == gid,
        region.contains(walk[0]),
        forall|i: int| 1 <= i < walk.len() ==> explored.contains(#[trigger] walk[i]),
        forall|i: int| 0 <= i < walk.len() - 1 ==> gadgets[#[trigger] walk[i]].has_peer(walk[i + 1]),
        walk.skip(1).filter(|g: u64| !gadgets[g].is_free_hop).len() <= buffer_radius,
{
    let walk = choose|walk: Seq<u64>| #[trigger] is_buffer_walk(gadgets, explored, region, buffer_radius, walk, gid);
    lemma_entered_counts(gadgets, walk);
    walk
}

proof fn lemma_entered_counts(gadgets: Map<u64, Gadget>, walk: Seq<u64>)
    requires
        walk.len() > 0,
    ensures
        entered(gadgets, walk, walk.len() - 1) == walk.skip(1).filter(|g: u64| !gadgets[g].is_free_hop).len(),
{
    reveal(Seq::filter);
    let measures = |g: u64| !gadgets[g].is_free_hop;
    let first = seq![walk[0]];
    law_walk_counts_measuring_gadgets(gadgets, walk, walk.len() as int);
    assert(walk.take(walk.len() as int) =~= first + walk.skip(1));
    Seq::filter_distributes_over_add(first, walk.skip(1), measures);
    assert(first.drop_last() =~= Seq::<u64>::empty());
    assert(Seq::<u64>::empty().filter(measures) =~= Seq::<u64>::empty());
    assert(first.last() == walk[0]);
    assert(first.filter(measures).len() == hops(gadgets, walk[0]));
}

} // verus!
