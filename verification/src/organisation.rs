//! The clusters of a monolithic program are its connected parts, and what is counted
//! for a cluster is what its part still misses.
use crate::bin::{self, Connector};
use crate::bit_vector::BitVector;
use crate::monolithic::{clusters_with, empty_node, joined, with_new_gadget, MonolithicCoordinator};
use crate::monolithic_decode::{outcomes_loaded, with_loaded, LoadedOutcomes};
use crate::network::Gadget;
use crate::program::{
    connectable, gadget_added, lemma_linked_at, lemma_linked_len, lemma_linked_other, ports_exist,
};
use crate::status::Status;
use crate::subgraph::{
    all_closed, closed, is_path, is_subgraph, lemma_closed_under_peers, law_reachability_is_transitive, lemma_reachable_step,
    reachable, TakenSubgraph,
};
use crate::union_find::{plus, Clusters};
use vstd::prelude::*;
use vstd::set_lib::{lemma_len_subset, lemma_set_disjoint_lens};

verus! {

/// The gadgets of a program with their nodes and clusters.
pub struct Layout {
    pub gadgets: Map<u64, Gadget>,
    pub index: Map<u64, usize>,
    pub clusters: Clusters,
}

/// The layout of a coordinator.
pub open spec fn layout_of(c: MonolithicCoordinator) -> Layout {
    Layout { gadgets: c.gadgets@, index: c.gid_to_union_index@, clusters: c.pending_subgraphs@ }
}

impl Layout {
    /// The cluster of a gadget.
    pub open spec fn cluster(self, gid: u64) -> usize {
        self.clusters.label[self.index[gid] as int]
    }

    /// The gadgets of a cluster that wait for their outcomes.
    pub open spec fn unloaded_in(self, cluster: usize) -> Set<u64> {
        Set::new(
            |gid: u64| self.gadgets.contains_key(gid) && self.cluster(gid) == cluster && self.gadgets[gid].outcomes is None,
        )
    }

    /// The output ports of a cluster that are not connected.
    pub open spec fn open_in(self, cluster: usize) -> Set<(u64, u64)> {
        Set::new(|port: (u64, u64)| self.is_open(port) && self.cluster(port.0) == cluster)
    }

    /// An output port is not connected.
    pub open spec fn is_open(self, port: (u64, u64)) -> bool {
        self.gadgets.contains_key(port.0) && port.1 < self.gadgets[port.0].outputs@.len()
            && self.gadgets[port.0].outputs@[port.1 as int] is None
    }

    /// All gadgets that wait for their outcomes.
    pub open spec fn all_unloaded(self) -> Set<u64> {
        Set::new(|gid: u64| self.gadgets.contains_key(gid) && self.gadgets[gid].outcomes is None)
    }

    /// All output ports that are not connected.
    pub open spec fn all_open(self) -> Set<(u64, u64)> {
        Set::new(|port: (u64, u64)| self.is_open(port))
    }

    /// The numbers of waiting gadgets and open ports, with some more of each, are machine
    /// words.
    pub open spec fn countable(self, gadgets: nat, ports: nat) -> bool {
        &&& self.all_unloaded().finite()
        &&& self.all_unloaded().len() + gadgets <= usize::MAX
        &&& self.all_open().finite()
        &&& self.all_open().len() + ports <= usize::MAX
    }

    /// The counts of a cluster are those of its part.
    pub open spec fn counted(self, cluster: usize) -> bool {
        let node = self.clusters.payload[cluster as int];
        &&& self.unloaded_in(cluster).finite()
        &&& node.num_unloaded_gadgets == self.unloaded_in(cluster).len()
        &&& self.open_in(cluster).finite()
        &&& node.num_unconnected_outputs == self.open_in(cluster).len()
    }

    /// Nodes and clusters are within their tables.
    pub open spec fn in_range(self) -> bool {
        &&& self.clusters.payload.len() == self.clusters.label.len()
        &&& self.clusters.label.len() <= usize::MAX
        &&& forall|i: int|
            0 <= i < self.clusters.label.len() ==> (#[trigger] self.clusters.label[i]) < self.clusters.label.len()
        &&& forall|gid: u64| #[trigger]
            self.gadgets.contains_key(gid) ==> self.index.contains_key(gid) && self.index[gid] < self.clusters.label.len()
    }

    /// The counts of every cluster are those of its part.
    pub open spec fn exact(self) -> bool {
        forall|gid: u64| #[trigger] self.gadgets.contains_key(gid) ==> self.counted(self.cluster(gid))
    }

    /// The clusters are the connected parts: what can be reached from a gadget is what is
    /// in its cluster.
    pub open spec fn connected(self) -> bool {
        forall|a: u64, b: u64|
            self.gadgets.contains_key(a) ==> (#[trigger] reachable(self.gadgets, a, b) <==> self.gadgets.contains_key(b)
                && self.cluster(a) == self.cluster(b))
    }

    /// The clusters are the connected parts of the program, with the right counts.
    pub open spec fn organised(self) -> bool {
        self.in_range() && self.exact() && self.connected()
    }
}

// ---------------------------------------------------------------------------
// Joining clusters
// ---------------------------------------------------------------------------

/// Counts of two disjoint sets add up.
proof fn lemma_add_counts<A>(a: Set<A>, b: Set<A>, both: Set<A>, all: Set<A>)
    requires
        a.finite(),
        b.finite(),
        a.disjoint(b),
        both =~= a.union(b),
        both.subset_of(all),
        all.finite(),
        all.len() <= usize::MAX,
    ensures
        both.finite(),
        both.len() == a.len() + b.len(),
        plus(a.len() as usize, b.len() as usize) == both.len(),
{
    lemma_set_disjoint_lens(a, b);
    lemma_len_subset(both, all);
}

/// Joining two clusters keeps their counts exact.
proof fn lemma_united(before: Layout, i: int, p: int)
    requires
        before.in_range(),
        before.exact(),
        before.countable(0, 0),
        0 <= i < before.clusters.label.len(),
        0 <= p < before.clusters.label.len(),
        before.counted(before.clusters.label[i]),
        before.counted(before.clusters.label[p]),
    ensures
        ({
            let after = Layout { clusters: before.clusters.united(i, p), ..before };
            &&& after.in_range()
            &&& after.exact()
            &&& after.counted(after.clusters.label[i])
            &&& forall|x: int, y: int|
                0 <= x < before.clusters.label.len() && 0 <= y < before.clusters.label.len() ==> (
                #[trigger] after.clusters.label[x] == #[trigger] after.clusters.label[y] <==> before.clusters.label[x]
                    == before.clusters.label[y] || (before.clusters.label[x] == before.clusters.label[i]
                    && before.clusters.label[y] == before.clusters.label[p]) || (before.clusters.label[x]
                    == before.clusters.label[p] && before.clusters.label[y] == before.clusters.label[i]))
        }),
{
    let after = Layout { clusters: before.clusters.united(i, p), ..before };
    let (la, lb) = (before.clusters.label[i], before.clusters.label[p]);
    if la != lb {
        let left = before.clusters.payload[la as int];
        let right = before.clusters.payload[lb as int];
        let (winner, loser) = if left.set_size >= right.set_size {
            (la, lb)
        } else {
            (lb, la)
        };
        assert forall|x: int| 0 <= x < before.clusters.label.len() implies #[trigger] after.clusters.label[x] == if before.clusters.label[x]
            == loser {
            winner
        } else {
            before.clusters.label[x]
        } by {}
        assert forall|gid: u64| before.gadgets.contains_key(gid) implies #[trigger] after.cluster(gid) == if before.cluster(
            gid,
        ) == loser {
            winner
        } else {
            before.cluster(gid)
        } by {}
        assert(after.unloaded_in(winner) =~= before.unloaded_in(la).union(before.unloaded_in(lb)));
        assert(after.open_in(winner) =~= before.open_in(la).union(before.open_in(lb)));
        lemma_add_counts(before.unloaded_in(la), before.unloaded_in(lb), after.unloaded_in(winner), before.all_unloaded());
        lemma_add_counts(before.open_in(la), before.open_in(lb), after.open_in(winner), before.all_open());
        assert(after.counted(winner));
        assert forall|gid: u64| #[trigger] after.gadgets.contains_key(gid) implies after.counted(after.cluster(gid)) by {
            let l = after.cluster(gid);
            if l != winner {
                assert(before.gadgets.contains_key(gid));
                assert(before.cluster(gid) == l);
                assert(l != loser);
                assert(after.unloaded_in(l) =~= before.unloaded_in(l));
                assert(after.open_in(l) =~= before.open_in(l));
            }
        }
    }
}

/// A node is in one of the clusters that the first `n` connectors join with node `i`.
pub open spec fn touched(clusters: Clusters, i: int, index: Map<u64, usize>, connectors: Seq<Connector>, n: int, x: int) -> bool {
    clusters.label[x] == clusters.label[i] || exists|k: int|
        0 <= k < n && clusters.label[x] == clusters.label[index[(#[trigger] connectors[k]).gid] as int]
}

/// Joining the clusters of connected gadgets keeps the counts exact, and joins nothing
/// else.
proof fn lemma_joined_exact(before: Layout, i: int, connectors: Seq<Connector>, n: int)
    requires
        before.in_range(),
        before.exact(),
        before.countable(0, 0),
        0 <= i < before.clusters.label.len(),
        before.counted(before.clusters.label[i]),
        0 <= n <= connectors.len(),
        forall|k: int| 0 <= k < connectors.len() ==> before.gadgets.contains_key((#[trigger] connectors[k]).gid),
    ensures
        ({
            let after = Layout { clusters: joined(before.clusters, i, before.index, connectors, n), ..before };
            &&& after.in_range()
            &&& after.clusters.label.len() == before.clusters.label.len()
            &&& after.exact()
            &&& after.counted(after.clusters.label[i])
            &&& forall|x: int, y: int|
                0 <= x < before.clusters.label.len() && 0 <= y < before.clusters.label.len() ==> (
                #[trigger] after.clusters.label[x] == #[trigger] after.clusters.label[y] <==> before.clusters.label[x]
                    == before.clusters.label[y] || (touched(before.clusters, i, before.index, connectors, n, x) && touched(
                    before.clusters,
                    i,
                    before.index,
                    connectors,
                    n,
                    y,
                )))
        }),
    decreases n,
{
    if n > 0 {
        lemma_joined_exact(before, i, connectors, n - 1);
        let mid = Layout { clusters: joined(before.clusters, i, before.index, connectors, n - 1), ..before };
        let after = Layout { clusters: joined(before.clusters, i, before.index, connectors, n), ..before };
        let peer = connectors[n - 1].gid;
        let p = before.index[peer] as int;
        assert(mid.gadgets.contains_key(peer));
        assert(mid.counted(mid.cluster(peer)));
        assert(mid.all_unloaded() =~= before.all_unloaded());
        assert(mid.all_open() =~= before.all_open());
        lemma_united(mid, i, p);
        assert forall|x: int, y: int|
            0 <= x < before.clusters.label.len() && 0 <= y < before.clusters.label.len() implies (
        #[trigger] after.clusters.label[x] == #[trigger] after.clusters.label[y] <==> before.clusters.label[x]
            == before.clusters.label[y] || (touched(before.clusters, i, before.index, connectors, n, x) && touched(
            before.clusters,
            i,
            before.index,
            connectors,
            n,
            y,
        ))) by {
            lemma_touched_step(before.clusters, i, before.index, connectors, n, x);
            lemma_touched_step(before.clusters, i, before.index, connectors, n, y);
            lemma_touched_step(before.clusters, i, before.index, connectors, n, i);
            lemma_touched_step(before.clusters, i, before.index, connectors, n, p);
            assert(mid.clusters.label[x] == mid.clusters.label[y] || mid.clusters.label[x] != mid.clusters.label[y]);
            assert(mid.clusters.label[x] == mid.clusters.label[i] || mid.clusters.label[x] != mid.clusters.label[i]);
            assert(mid.clusters.label[y] == mid.clusters.label[i] || mid.clusters.label[y] != mid.clusters.label[i]);
            assert(mid.clusters.label[x] == mid.clusters.label[p] || mid.clusters.label[x] != mid.clusters.label[p]);
            assert(mid.clusters.label[y] == mid.clusters.label[p] || mid.clusters.label[y] != mid.clusters.label[p]);
        }
    }
}

/// One more connector touches one more cluster.
proof fn lemma_touched_step(clusters: Clusters, i: int, index: Map<u64, usize>, connectors: Seq<Connector>, n: int, x: int)
    requires
        0 < n <= connectors.len(),
    ensures
        touched(clusters, i, index, connectors, n, x) <==> touched(clusters, i, index, connectors, n - 1, x)
            || clusters.label[x] == clusters.label[index[connectors[n - 1].gid] as int],
{
    if touched(clusters, i, index, connectors, n, x) && clusters.label[x] != clusters.label[i] {
        let k = choose|k: int|
            0 <= k < n && clusters.label[x] == clusters.label[index[(#[trigger] connectors[k]).gid] as int];
        if k < n - 1 {
            assert(touched(clusters, i, index, connectors, n - 1, x));
        }
    }
    if clusters.label[x] == clusters.label[index[connectors[n - 1].gid] as int] {
        assert(connectors[n - 1] == connectors[n - 1]);
        assert(touched(clusters, i, index, connectors, n, x));
    }
    if touched(clusters, i, index, connectors, n - 1, x) && clusters.label[x] != clusters.label[i] {
        let k = choose|k: int|
            0 <= k < n - 1 && clusters.label[x] == clusters.label[index[(#[trigger] connectors[k]).gid] as int];
        assert(0 <= k < n);
    }
}

// ---------------------------------------------------------------------------
// New gadgets
// ---------------------------------------------------------------------------

/// The ports named by connectors.
pub open spec fn named_ports(connectors: Seq<Connector>) -> Set<(u64, u64)> {
    connectors.map_values(|c: Connector| (c.gid, c.port)).to_set()
}

/// The first `n` output ports of a gadget.
pub open spec fn first_ports(gid: u64, n: nat) -> Set<(u64, u64)> {
    Seq::new(n, |k: int| (gid, k as u64)).to_set()
}

/// A port is named by the connectors.
pub open spec fn is_named(connectors: Seq<Connector>, port: (u64, u64)) -> bool {
    exists|k: int| 0 <= k < connectors.len() && (#[trigger] connectors[k]).gid == port.0 && connectors[k].port == port.1
}

proof fn lemma_named_ports(connectors: Seq<Connector>)
    requires
        forall|i: int, j: int| 0 <= i < j < connectors.len() ==> #[trigger] connectors[i] != #[trigger] connectors[j],
    ensures
        named_ports(connectors).finite(),
        named_ports(connectors).len() == connectors.len(),
        forall|port: (u64, u64)| #[trigger] named_ports(connectors).contains(port) <==> is_named(connectors, port),
{
    let pairs = connectors.map_values(|c: Connector| (c.gid, c.port));
    assert forall|i: int, j: int| 0 <= i < pairs.len() && 0 <= j < pairs.len() && i != j implies pairs[i] != pairs[j] by {
        if i < j {
            assert(connectors[i] != connectors[j]);
        } else {
            assert(connectors[j] != connectors[i]);
        }
    }
    pairs.unique_seq_to_set();
    assert forall|port: (u64, u64)| #[trigger] named_ports(connectors).contains(port) <==> is_named(connectors, port) by {
        if pairs.contains(port) {
            let k = pairs.index_of(port);
            assert(connectors[k].gid == port.0);
        }
        if is_named(connectors, port) {
            let k = choose|k: int|
                0 <= k < connectors.len() && (#[trigger] connectors[k]).gid == port.0 && connectors[k].port == port.1;
            assert(pairs[k] == port);
        }
    }
}

proof fn lemma_first_ports(gid: u64, n: nat)
    requires
        n <= usize::MAX,
    ensures
        first_ports(gid, n).finite(),
        first_ports(gid, n).len() == n,
        forall|port: (u64, u64)| #[trigger] first_ports(gid, n).contains(port) <==> port.0 == gid && port.1 < n,
{
    let ports = Seq::new(n, |k: int| (gid, k as u64));
    ports.unique_seq_to_set();
    assert forall|port: (u64, u64)| #[trigger] first_ports(gid, n).contains(port) <==> port.0 == gid && port.1 < n by {
        if port.0 == gid && port.1 < n {
            assert(ports[port.1 as int] == port);
        }
    }
}

/// What a new gadget does to the outputs of the others: the named ports lead to it, the
/// rest stays.
proof fn lemma_outputs_after(before: Map<u64, Gadget>, after: Map<u64, Gadget>, gid: u64, request: bin::Gadget, gadget_type: bin::GadgetType, g: u64, port: int)
    requires
        gadget_added(before, after, gid, request, gadget_type),
        connectable(before, request.connectors@),
        before.contains_key(g),
        g != gid,
    ensures
        after[g].outputs@.len() == before[g].outputs@.len(),
        0 <= port < before[g].outputs@.len() ==> {
            &&& is_named(request.connectors@, (g, port as u64)) ==> after[g].outputs@[port] is Some
                && after[g].outputs@[port]->0.gid == gid
            &&& !is_named(request.connectors@, (g, port as u64)) ==> after[g].outputs@[port] == before[g].outputs@[port]
        },
{
    let connectors = request.connectors@;
    let outputs = before[g].outputs@;
    let n = connectors.len() as int;
    assert(ports_exist(outputs, g, connectors, n));
    lemma_linked_len(outputs, g, gid, connectors, n);
    assert(outputs.len() == before[g].outputs.len());
    if 0 <= port < outputs.len() {
        if is_named(connectors, (g, port as u64)) {
            let k = choose|k: int|
                0 <= k < connectors.len() && (#[trigger] connectors[k]).gid == g && connectors[k].port == port as u64;
            lemma_linked_at(outputs, g, gid, connectors, n, k);
        } else {
            assert forall|k: int| 0 <= k < n implies !((#[trigger] connectors[k]).gid == g && connectors[k].port == port) by {
                if connectors[k].gid == g && connectors[k].port == port {
                    assert(connectors[k].port == port as u64);
                }
            }
            lemma_linked_other(outputs, g, gid, connectors, n, port);
        }
    }
}

/// A program and what a new gadget makes of it.
pub open spec fn gadget_joins(before: Layout, after: Layout, gid: u64, request: bin::Gadget, gadget_type: bin::GadgetType) -> bool {
    &&& !before.gadgets.contains_key(gid)
    &&& connectable(before.gadgets, request.connectors@)
    &&& before.clusters.label.len() < usize::MAX
    &&& gadget_added(before.gadgets, after.gadgets, gid, request, gadget_type)
    &&& after.index == before.index.insert(gid, before.clusters.label.len() as usize)
    &&& after.clusters == clusters_with(before.clusters, after.index, request.connectors@, gadget_type.outputs@.len())
}

/// The layout between the joining of clusters and the counting of the new gadget.
spec fn between(before: Layout, after: Layout, connectors: Seq<Connector>) -> Layout {
    let i = before.clusters.label.len() as int;
    Layout {
        gadgets: before.gadgets,
        index: after.index,
        clusters: joined(before.clusters.inserted(empty_node()), i, after.index, connectors, connectors.len() as int),
    }
}

/// The layout with the node of the new gadget, before anything is joined.
spec fn with_node_added(before: Layout, after: Layout) -> Layout {
    Layout { gadgets: before.gadgets, index: after.index, clusters: before.clusters.inserted(empty_node()) }
}

/// A new node changes no count.
proof fn lemma_node_added(before: Layout, after: Layout, gid: u64, request: bin::Gadget, gadget_type: bin::GadgetType)
    requires
        before.in_range(),
        before.exact(),
        gadget_joins(before, after, gid, request, gadget_type),
    ensures
        with_node_added(before, after).in_range(),
        with_node_added(before, after).exact(),
        with_node_added(before, after).counted(before.clusters.label.len() as usize),
        forall|g: u64| #[trigger] before.gadgets.contains_key(g) ==> with_node_added(before, after).cluster(g) == before.cluster(g)
            && before.cluster(g) < before.clusters.label.len(),
{
    let start = with_node_added(before, after);
    let i = before.clusters.label.len() as usize;
    assert forall|g: u64| #[trigger] before.gadgets.contains_key(g) implies start.cluster(g) == before.cluster(g)
        && before.cluster(g) < i by {
        assert(start.index[g] == before.index[g]);
        assert(before.clusters.label[before.index[g] as int] < i);
    }
    assert(start.unloaded_in(i) =~= Set::empty());
    assert(start.open_in(i) =~= Set::empty());
    assert forall|g: u64| #[trigger] start.gadgets.contains_key(g) implies start.counted(start.cluster(g)) by {
        assert(before.gadgets.contains_key(g));
        let l = before.cluster(g);
        assert(start.unloaded_in(l) =~= before.unloaded_in(l));
        assert(start.open_in(l) =~= before.open_in(l));
        assert(start.clusters.payload[l as int] == before.clusters.payload[l as int]);
    }
}

/// A new gadget keeps the counts exact.
proof fn lemma_gadget_exact(before: Layout, after: Layout, gid: u64, request: bin::Gadget, gadget_type: bin::GadgetType)
    requires
        before.in_range(),
        before.exact(),
        before.countable(1, gadget_type.outputs@.len()),
        gadget_joins(before, after, gid, request, gadget_type),
    ensures
        after.in_range(),
        after.exact(),
        forall|x: int| 0 <= x < after.clusters.label.len() ==> #[trigger] after.clusters.label[x] == between(
            before,
            after,
            request.connectors@,
        ).clusters.label[x],
{
    let connectors = request.connectors@;
    let outputs = gadget_type.outputs@.len();
    let i = before.clusters.label.len() as int;
    let start = with_node_added(before, after);
    let mid = between(before, after, connectors);
    lemma_node_added(before, after, gid, request, gadget_type);
    assert(start.clusters.label[i] == i);
    assert(start.all_unloaded() =~= before.all_unloaded());
    assert(start.all_open() =~= before.all_open());
    lemma_joined_exact(start, i, connectors, connectors.len() as int);
    assert(mid == (Layout { clusters: joined(start.clusters, i, start.index, connectors, connectors.len() as int), ..start }));
    let l = mid.clusters.label[i];
    assert(after.clusters.label == mid.clusters.label);
    assert(after.cluster(gid) == l);
    assert forall|g: u64| #[trigger] after.gadgets.contains_key(g) implies after.index.contains_key(g) && after.index[g]
        < after.clusters.label.len() by {
        if g != gid {
            assert(before.gadgets.dom().insert(gid).contains(g));
            assert(before.gadgets.contains_key(g));
        }
    }
    assert forall|k: int| 0 <= k < connectors.len() implies mid.cluster((#[trigger] connectors[k]).gid) == l by {
        let x = after.index[connectors[k].gid] as int;
        assert(before.gadgets.contains_key(connectors[k].gid));
        assert(touched(start.clusters, i, start.index, connectors, connectors.len() as int, x));
        assert(touched(start.clusters, i, start.index, connectors, connectors.len() as int, i));
        assert(mid.clusters.label[x] == mid.clusters.label[i]);
    }
    lemma_named_ports(connectors);
    assert(gadget_type.outputs@.len() == gadget_type.outputs.len());
    lemma_first_ports(gid, outputs);
    let named = named_ports(connectors);
    let fresh = first_ports(gid, outputs);
    assert forall|port: (u64, u64)| #[trigger] after.is_open(port) <==> (mid.is_open(port) && !named.contains(port))
        || fresh.contains(port) by {
        if port.0 == gid {
        } else {
            assert(after.gadgets.contains_key(port.0) <==> before.gadgets.contains_key(port.0)) by {
                assert(after.gadgets.dom().contains(port.0) <==> before.gadgets.dom().insert(gid).contains(port.0));
            }
            if before.gadgets.contains_key(port.0) {
                lemma_outputs_after(before.gadgets, after.gadgets, gid, request, gadget_type, port.0, port.1 as int);
                assert(((port.1 as int) as u64) == port.1);
            }
        }
    }
    assert forall|g: u64| before.gadgets.contains_key(g) implies #[trigger] after.cluster(g) == mid.cluster(g) by {}
    // the cluster of the new gadget
    let waiting = mid.unloaded_in(l);
    assert(after.unloaded_in(l) =~= waiting.insert(gid)) by {
        assert forall|g: u64| after.unloaded_in(l).contains(g) <==> waiting.insert(gid).contains(g) by {
            assert(after.gadgets.dom().contains(g) <==> before.gadgets.dom().insert(gid).contains(g));
        }
    }
    assert(!waiting.contains(gid));
    assert(waiting.subset_of(before.all_unloaded()));
    lemma_len_subset(waiting, before.all_unloaded());
    let open = mid.open_in(l);
    assert(named.subset_of(open)) by {
        assert forall|port: (u64, u64)| named.contains(port) implies open.contains(port) by {
            let k = choose|k: int|
                0 <= k < connectors.len() && (#[trigger] connectors[k]).gid == port.0 && connectors[k].port == port.1;
            assert(before.gadgets.contains_key(connectors[k].gid));
            assert(mid.cluster(connectors[k].gid) == l);
        }
    }
    assert(after.open_in(l) =~= open.difference(named).union(fresh));
    assert(open.subset_of(before.all_open()));
    lemma_len_subset(open, before.all_open());
    lemma_len_subset(named, open);
    lemma_difference_len(open, named);
    assert(open.difference(named).disjoint(fresh));
    lemma_set_disjoint_lens(open.difference(named), fresh);
    assert(after.clusters.payload[l as int] == with_new_gadget(mid.clusters.payload[l as int], outputs, connectors.len()));
    assert(connectors.len() == request.connectors.len());
    assert(after.counted(l));
    assert forall|g: u64| #[trigger] after.gadgets.contains_key(g) implies after.counted(after.cluster(g)) by {
        let m = after.cluster(g);
        if m != l {
            assert(g != gid);
            assert(before.gadgets.dom().insert(gid).contains(g));
            assert(mid.gadgets.contains_key(g));
            assert(mid.counted(mid.cluster(g)));
            assert(after.unloaded_in(m) =~= mid.unloaded_in(m)) by {
                assert forall|h: u64| after.unloaded_in(m).contains(h) <==> mid.unloaded_in(m).contains(h) by {
                    assert(after.gadgets.dom().contains(h) <==> before.gadgets.dom().insert(gid).contains(h));
                }
            }
            assert(after.open_in(m) =~= mid.open_in(m)) by {
                assert forall|port: (u64, u64)| after.open_in(m).contains(port) <==> mid.open_in(m).contains(port) by {
                    assert(after.is_open(port) <==> (mid.is_open(port) && !named.contains(port)) || fresh.contains(port));
                    if named.contains(port) {
                        assert(open.contains(port));
                    }
                }
            }
            assert(after.clusters.payload[m as int] == mid.clusters.payload[m as int]);
        }
    }
}

proof fn lemma_difference_len<A>(a: Set<A>, b: Set<A>)
    requires
        a.finite(),
        b.subset_of(a),
    ensures
        a.difference(b).finite(),
        a.difference(b).len() == a.len() - b.len(),
{
    vstd::set_lib::lemma_set_subset_finite(a, b);
    let rest = a.difference(b);
    vstd::set_lib::lemma_set_subset_finite(a, rest);
    assert(rest.union(b) =~= a);
    assert(rest.disjoint(b));
    lemma_set_disjoint_lens(rest, b);
}

// ---------------------------------------------------------------------------
// Connections
// ---------------------------------------------------------------------------

/// Every gadget along a path is reached.
proof fn lemma_reachable_along(gadgets: Map<u64, Gadget>, a: u64, path: Seq<u64>, i: int)
    requires
        is_path(gadgets, path),
        reachable(gadgets, a, path[0]),
        0 <= i < path.len(),
    ensures
        reachable(gadgets, a, path[i]),
    decreases i,
{
    if i > 0 {
        lemma_reachable_along(gadgets, a, path, i - 1);
        assert(gadgets.contains_key(path[i - 1]));
        lemma_reachable_step(gadgets, a, path[i - 1], path[i]);
    }
}

/// A gadget reaches itself and its peers.
proof fn lemma_reachable_self(gadgets: Map<u64, Gadget>, a: u64)
    ensures
        reachable(gadgets, a, a),
{
    let path = seq![a];
    assert(is_path(gadgets, path));
    assert(path.last() == a);
}

/// Where connections stay, so does what can be reached.
proof fn lemma_reachable_stays(before: Map<u64, Gadget>, after: Map<u64, Gadget>, a: u64, b: u64)
    requires
        reachable(before, a, b),
        forall|g: u64, p: u64|
            before.contains_key(g) && #[trigger] before[g].has_peer(p) ==> after.contains_key(g) && after[g].has_peer(p),
    ensures
        reachable(after, a, b),
{
    let path = choose|path: Seq<u64>| #[trigger] is_path(before, path) && path[0] == a && path.last() == b;
    assert forall|i: int| 0 <= i < path.len() - 1 implies after.contains_key(#[trigger] path[i]) && after[path[i]].has_peer(
        path[i + 1],
    ) by {
        assert(before.contains_key(path[i]) && before[path[i]].has_peer(path[i + 1]));
    }
    assert(is_path(after, path));
}

/// The connections of a program after a new gadget.
proof fn lemma_peers_after(before: Layout, after: Layout, gid: u64, request: bin::Gadget, gadget_type: bin::GadgetType, g: u64, p: u64)
    requires
        gadget_joins(before, after, gid, request, gadget_type),
        after.gadgets.contains_key(g),
    ensures
        g != gid ==> before.gadgets.contains_key(g),
        g == gid ==> (after.gadgets[g].has_peer(p) <==> exists|k: int|
            0 <= k < request.connectors@.len() && (#[trigger] request.connectors@[k]).gid == p),
        g != gid ==> (after.gadgets[g].has_peer(p) <==> before.gadgets[g].has_peer(p) || (p == gid && exists|k: int|
            0 <= k < request.connectors@.len() && (#[trigger] request.connectors@[k]).gid == g)),
{
    let connectors = request.connectors@;
    assert(before.gadgets.dom().insert(gid).contains(g));
    let new = after.gadgets[g];
    if g == gid {
        assert(new.instance.connectors@ == connectors);
    } else {
        let old = before.gadgets[g];
        assert(before.gadgets.contains_key(g));
        lemma_outputs_after(before.gadgets, after.gadgets, gid, request, gadget_type, g, 0);
        if new.has_peer(p) && !old.has_peer(p) {
            let i = choose|i: int|
                0 <= i < new.outputs@.len() && (#[trigger] new.outputs@[i]) is Some && new.outputs@[i]->0.gid == p;
            lemma_outputs_after(before.gadgets, after.gadgets, gid, request, gadget_type, g, i);
            assert(old.outputs@[i] != new.outputs@[i]);
            let k = choose|k: int| 0 <= k < connectors.len() && (#[trigger] connectors[k]).gid == g && connectors[k].port == i as u64;
            assert(connectors[k].gid == g);
        }
        if old.has_peer(p) {
            if exists|i: int| 0 <= i < old.instance.connectors@.len() && (#[trigger] old.instance.connectors@[i]).gid == p {
                assert(new.instance == old.instance);
            } else {
                let i = choose|i: int|
                    0 <= i < old.outputs@.len() && (#[trigger] old.outputs@[i]) is Some && old.outputs@[i]->0.gid == p;
                lemma_outputs_after(before.gadgets, after.gadgets, gid, request, gadget_type, g, i);
                if is_named(connectors, (g, i as u64)) {
                    let k = choose|k: int|
                        0 <= k < connectors.len() && (#[trigger] connectors[k]).gid == g && connectors[k].port == i as u64;
                    assert(old.outputs@.len() == old.outputs.len());
                    assert(old.outputs@[connectors[k].port as int] is None);
                    assert(false);
                }
                assert(new.outputs@[i] == old.outputs@[i]);
            }
        }
        if exists|k: int| 0 <= k < connectors.len() && (#[trigger] connectors[k]).gid == g {
            let k = choose|k: int| 0 <= k < connectors.len() && (#[trigger] connectors[k]).gid == g;
            let i = connectors[k].port as int;
            assert(i < old.outputs@.len());
            lemma_outputs_after(before.gadgets, after.gadgets, gid, request, gadget_type, g, i);
            assert((i as u64) == connectors[k].port);
            assert(is_named(connectors, (g, i as u64)));
            assert(new.outputs@[i] is Some);
            assert(new.has_peer(gid));
        }
    }
}

/// A new gadget keeps the clusters the connected parts.
proof fn lemma_gadget_connected(before: Layout, after: Layout, gid: u64, request: bin::Gadget, gadget_type: bin::GadgetType)
    requires
        before.organised(),
        before.countable(1, gadget_type.outputs@.len()),
        gadget_joins(before, after, gid, request, gadget_type),
    ensures
        after.connected(),
{
    let connectors = request.connectors@;
    let n = connectors.len() as int;
    let i = before.clusters.label.len() as int;
    let start = with_node_added(before, after);
    lemma_node_added(before, after, gid, request, gadget_type);
    lemma_gadget_exact(before, after, gid, request, gadget_type);
    assert(start.clusters.label[i] == i);
    assert(start.all_unloaded() =~= before.all_unloaded());
    assert(start.all_open() =~= before.all_open());
    lemma_joined_exact(start, i, connectors, n);
    assert(between(before, after, connectors) == (Layout {
        clusters: joined(start.clusters, i, start.index, connectors, n),
        ..start
    }));
    // which gadgets share a cluster
    assert forall|a: u64, b: u64| after.gadgets.contains_key(a) && after.gadgets.contains_key(b) implies (
    #[trigger] after.cluster(a) == #[trigger] after.cluster(b) <==> start.cluster(a) == start.cluster(b) || (touched(
        start.clusters,
        i,
        start.index,
        connectors,
        n,
        after.index[a] as int,
    ) && touched(start.clusters, i, start.index, connectors, n, after.index[b] as int))) by {
        let (x, y) = (after.index[a] as int, after.index[b] as int);
        assert(after.clusters.label[x] == between(before, after, connectors).clusters.label[x]);
        assert(after.clusters.label[y] == between(before, after, connectors).clusters.label[y]);
    }
    assert forall|g: u64| after.gadgets.contains_key(g) && g != gid implies #[trigger] before.gadgets.contains_key(g) by {
        assert(before.gadgets.dom().insert(gid).contains(g));
    }
    assert forall|g: u64, p: u64|
        before.gadgets.contains_key(g) && #[trigger] before.gadgets[g].has_peer(p) implies after.gadgets.contains_key(g)
        && after.gadgets[g].has_peer(p) by {
        assert(after.gadgets.dom().contains(g));
        lemma_peers_after(before, after, gid, request, gadget_type, g, p);
    }
    assert forall|a: u64, b: u64| after.gadgets.contains_key(a) implies (#[trigger] reachable(after.gadgets, a, b)
        <==> after.gadgets.contains_key(b) && after.cluster(a) == after.cluster(b)) by {
        if reachable(after.gadgets, a, b) {
            let set = Set::new(|g: u64| after.gadgets.contains_key(g) && after.cluster(g) == after.cluster(a));
            assert forall|g: u64, p: u64|
                set.contains(g) && after.gadgets.contains_key(g) && #[trigger] after.gadgets[g].has_peer(p) implies set.contains(p) by {
                lemma_peer_shares(before, after, gid, request, gadget_type, g, p);
            }
            let path = choose|path: Seq<u64>| #[trigger] is_path(after.gadgets, path) && path[0] == a && path.last() == b;
            lemma_closed_under_peers(after.gadgets, a, set, path);
        }
        if after.gadgets.contains_key(b) && after.cluster(a) == after.cluster(b) {
            if start.cluster(a) == start.cluster(b) {
                if a == gid || b == gid {
                    if a != gid {
                        assert(before.gadgets.contains_key(a));
                        assert(start.cluster(a) < i);
                    }
                    if b != gid {
                        assert(before.gadgets.contains_key(b));
                        assert(start.cluster(b) < i);
                    }
                    assert(start.cluster(gid) == i);
                    lemma_reachable_self(after.gadgets, a);
                } else {
                    assert(before.gadgets.contains_key(a));
                    assert(before.gadgets.contains_key(b));
                    assert(reachable(before.gadgets, a, b));
                    lemma_reachable_stays(before.gadgets, after.gadgets, a, b);
                }
            } else {
                lemma_reaches_new(before, after, gid, request, gadget_type, a);
                lemma_reaches_new(before, after, gid, request, gadget_type, b);
                law_reachability_is_transitive(after.gadgets, a, gid, b);
            }
        }
    }
}

/// A gadget of a touched cluster reaches the new gadget and is reached from it.
proof fn lemma_reaches_new(before: Layout, after: Layout, gid: u64, request: bin::Gadget, gadget_type: bin::GadgetType, a: u64)
    requires
        before.organised(),
        gadget_joins(before, after, gid, request, gadget_type),
        after.gadgets.contains_key(a),
        touched(
            with_node_added(before, after).clusters,
            before.clusters.label.len() as int,
            after.index,
            request.connectors@,
            request.connectors@.len() as int,
            after.index[a] as int,
        ),
    ensures
        reachable(after.gadgets, a, gid),
        reachable(after.gadgets, gid, a),
{
    let connectors = request.connectors@;
    let start = with_node_added(before, after);
    let i = before.clusters.label.len() as int;
    lemma_node_added(before, after, gid, request, gadget_type);
    lemma_reachable_self(after.gadgets, gid);
    if a != gid {
        assert(before.gadgets.dom().insert(gid).contains(a));
        assert(before.gadgets.contains_key(a));
        assert(start.cluster(a) < i);
        assert(start.clusters.label[i] == i);
        let k = choose|k: int|
            0 <= k < connectors.len() && start.clusters.label[after.index[a] as int]
                == start.clusters.label[after.index[(#[trigger] connectors[k]).gid] as int];
        let peer = connectors[k].gid;
        assert(before.gadgets.contains_key(peer));
        assert(before.cluster(a) == before.cluster(peer));
        assert(reachable(before.gadgets, a, peer));
        assert(reachable(before.gadgets, peer, a));
        assert forall|g: u64, p: u64|
            before.gadgets.contains_key(g) && #[trigger] before.gadgets[g].has_peer(p) implies after.gadgets.contains_key(g)
            && after.gadgets[g].has_peer(p) by {
            assert(after.gadgets.dom().contains(g));
            lemma_peers_after(before, after, gid, request, gadget_type, g, p);
        }
        lemma_reachable_stays(before.gadgets, after.gadgets, a, peer);
        lemma_reachable_stays(before.gadgets, after.gadgets, peer, a);
        assert(after.gadgets.dom().contains(peer));
        assert(after.gadgets.dom().contains(gid));
        lemma_peers_after(before, after, gid, request, gadget_type, peer, gid);
        lemma_peers_after(before, after, gid, request, gadget_type, gid, peer);
        lemma_reachable_step(after.gadgets, a, peer, gid);
        lemma_reachable_step(after.gadgets, gid, gid, peer);
        law_reachability_is_transitive(after.gadgets, gid, peer, a);
    }
}

/// A peer of a gadget is in its cluster, also after a new gadget.
proof fn lemma_peer_shares(before: Layout, after: Layout, gid: u64, request: bin::Gadget, gadget_type: bin::GadgetType, g: u64, p: u64)
    requires
        before.organised(),
        before.countable(1, gadget_type.outputs@.len()),
        gadget_joins(before, after, gid, request, gadget_type),
        after.gadgets.contains_key(g),
        after.gadgets[g].has_peer(p),
    ensures
        after.gadgets.contains_key(p),
        after.cluster(p) == after.cluster(g),
{
    let connectors = request.connectors@;
    let n = connectors.len() as int;
    let i = before.clusters.label.len() as int;
    let start = with_node_added(before, after);
    lemma_node_added(before, after, gid, request, gadget_type);
    lemma_gadget_exact(before, after, gid, request, gadget_type);
    assert(start.all_unloaded() =~= before.all_unloaded());
    assert(start.all_open() =~= before.all_open());
    assert(start.clusters.label[i] == i);
    lemma_joined_exact(start, i, connectors, n);
    let mid = between(before, after, connectors);
    assert(mid == (Layout { clusters: joined(start.clusters, i, start.index, connectors, n), ..start }));
    lemma_peers_after(before, after, gid, request, gadget_type, g, p);
    assert forall|k: int| 0 <= k < connectors.len() implies after.gadgets.contains_key((#[trigger] connectors[k]).gid)
        && after.cluster(connectors[k].gid) == after.cluster(gid) by {
        assert(before.gadgets.contains_key(connectors[k].gid));
        assert(after.gadgets.dom().contains(connectors[k].gid));
        let x = after.index[connectors[k].gid] as int;
        assert(touched(start.clusters, i, start.index, connectors, n, x));
        assert(touched(start.clusters, i, start.index, connectors, n, i));
        assert(mid.clusters.label[x] == mid.clusters.label[i]);
        assert(after.clusters.label[x] == mid.clusters.label[x]);
        assert(after.clusters.label[i] == mid.clusters.label[i]);
    }
    assert(after.gadgets.dom().contains(gid));
    if g != gid && before.gadgets[g].has_peer(p) {
        lemma_reachable_self(before.gadgets, g);
        lemma_reachable_step(before.gadgets, g, g, p);
        assert(before.gadgets.contains_key(p));
        assert(before.cluster(g) == before.cluster(p));
        assert(after.gadgets.dom().contains(p));
        let (x, y) = (after.index[g] as int, after.index[p] as int);
        assert(start.cluster(g) == start.cluster(p));
        assert(mid.clusters.label[x] == mid.clusters.label[y]);
        assert(after.clusters.label[x] == mid.clusters.label[x]);
        assert(after.clusters.label[y] == mid.clusters.label[y]);
    }
}

// ---------------------------------------------------------------------------
// Laws
// ---------------------------------------------------------------------------

/// A coordinator without a program is organised.
pub proof fn law_empty_program_is_organised(c: MonolithicCoordinator)
    requires
        c.is_empty(),
    ensures
        layout_of(c).organised(),
{
}

/// Creating a gadget keeps the clusters the connected parts of the program, with the
/// right counts, as long as its id is new and the counts are machine words.
pub proof fn law_new_gadget_keeps_organisation(
    before: MonolithicCoordinator,
    after: MonolithicCoordinator,
    request: bin::Gadget,
    answer: Result<u64, Status>,
)
    requires
        before.wf(),
        after.wf(),
        before.gadget_request_valid(request),
        MonolithicCoordinator::gadget_created(before, after, request, answer),
        answer matches Ok(gid) ==> !before.gadgets@.contains_key(gid),
        layout_of(before).organised(),
        before.types@.gadget_types.contains_key(request.gtype) ==> layout_of(before).countable(
            1,
            before.types@.gadget_types[request.gtype].outputs@.len(),
        ),
    ensures
        layout_of(after).organised(),
{
    if before.types@.gadget_types.contains_key(request.gtype) {
        let gadget_type = before.types@.gadget_types[request.gtype];
        let gid = answer->Ok_0;
        let (b, a) = (layout_of(before), layout_of(after));
        after.pending_subgraphs.lemma_view();
        crate::monolithic::lemma_joined(
            b.clusters.inserted(empty_node()),
            b.clusters.label.len() as int,
            a.index,
            request.connectors@,
            request.connectors@.len() as int,
        );
        assert(a.clusters.label.len() == b.clusters.label.len() + 1);
        assert(gadget_joins(b, a, gid, request, gadget_type));
        lemma_gadget_exact(b, a, gid, request, gadget_type);
        lemma_gadget_connected(b, a, gid, request, gadget_type);
    } else {
        assert(layout_of(after) == layout_of(before));
    }
}

/// The gadgets have the same connections and outcomes.
pub open spec fn same_connections(before: Map<u64, Gadget>, after: Map<u64, Gadget>) -> bool {
    &&& after.dom() == before.dom()
    &&& forall|g: u64| #[trigger]
        before.contains_key(g) ==> {
            &&& after[g].instance == before[g].instance
            &&& after[g].outputs == before[g].outputs
            &&& after[g].outcomes == before[g].outcomes
        }
}

/// What can be reached depends on the connections alone.
proof fn lemma_same_reach(before: Map<u64, Gadget>, after: Map<u64, Gadget>, a: u64, b: u64)
    requires
        after.dom() == before.dom(),
        forall|g: u64| #[trigger]
            before.contains_key(g) ==> after[g].instance == before[g].instance && after[g].outputs == before[g].outputs,
    ensures
        reachable(after, a, b) <==> reachable(before, a, b),
{
    assert forall|g: u64| after.contains_key(g) implies #[trigger] before.contains_key(g) by {
        assert(before.dom().contains(g));
    }
    if reachable(before, a, b) {
        assert forall|g: u64, p: u64|
            before.contains_key(g) && #[trigger] before[g].has_peer(p) implies after.contains_key(g) && after[g].has_peer(p) by {
            assert(after.dom().contains(g));
        }
        lemma_reachable_stays(before, after, a, b);
    }
    if reachable(after, a, b) {
        assert forall|g: u64, p: u64|
            after.contains_key(g) && #[trigger] after[g].has_peer(p) implies before.contains_key(g) && before[g].has_peer(p) by {
            assert(before.contains_key(g));
        }
        lemma_reachable_stays(after, before, a, b);
    }
}

proof fn lemma_same_connections(before: Layout, after: Layout)
    requires
        before.organised(),
        same_connections(before.gadgets, after.gadgets),
        after.index == before.index,
        after.clusters == before.clusters,
    ensures
        after.organised(),
{
    assert forall|g: u64| #[trigger] after.gadgets.contains_key(g) <==> before.gadgets.contains_key(g) by {
        assert(after.gadgets.dom().contains(g) <==> before.gadgets.dom().contains(g));
    }
    assert forall|g: u64| #[trigger] after.gadgets.contains_key(g) implies after.counted(after.cluster(g)) by {
        assert(before.gadgets.contains_key(g));
        let l = after.cluster(g);
        assert(before.counted(before.cluster(g)));
        assert(after.unloaded_in(l) =~= before.unloaded_in(l));
        assert(after.open_in(l) =~= before.open_in(l));
    }
    assert forall|a: u64, b: u64| after.gadgets.contains_key(a) implies (#[trigger] reachable(after.gadgets, a, b)
        <==> after.gadgets.contains_key(b) && after.cluster(a) == after.cluster(b)) by {
        lemma_same_reach(before.gadgets, after.gadgets, a, b);
        assert(before.gadgets.contains_key(a));
        assert(reachable(before.gadgets, a, b) <==> before.gadgets.contains_key(b) && before.cluster(a) == before.cluster(b));
    }
}

/// Creating a check model keeps the program organised.
pub proof fn law_check_model_keeps_organisation(
    before: MonolithicCoordinator,
    after: MonolithicCoordinator,
    request: bin::CheckModel,
    answer: Result<u64, Status>,
)
    requires
        MonolithicCoordinator::check_model_created(before, after, request, answer),
        layout_of(before).organised(),
    ensures
        layout_of(after).organised(),
{
    assert(same_connections(before.gadgets@, after.gadgets@));
    lemma_same_connections(layout_of(before), layout_of(after));
}

/// Creating an error model keeps the program organised.
pub proof fn law_error_model_keeps_organisation(
    before: MonolithicCoordinator,
    after: MonolithicCoordinator,
    request: bin::ErrorModel,
    answer: Result<u64, Status>,
)
    requires
        MonolithicCoordinator::error_model_created(before, after, request, answer),
        layout_of(before).organised(),
    ensures
        layout_of(after).organised(),
{
    assert(same_connections(before.gadgets@, after.gadgets@));
    lemma_same_connections(layout_of(before), layout_of(after));
}

/// Outcomes that arrive keep the program organised. They are the final ones exactly if
/// every gadget that is connected with this one now has its outcomes and has all its
/// outputs connected; its part can then be taken out of the program.
pub proof fn law_final_outcomes_complete_the_part(
    before: MonolithicCoordinator,
    after: MonolithicCoordinator,
    gid: u64,
    bits: BitVector,
    loaded: LoadedOutcomes,
)
    requires
        outcomes_loaded(before, after, gid, bits, loaded),
        before.gadgets@.contains_key(gid),
        before.gadgets@[gid].outcomes is None,
        layout_of(before).organised(),
    ensures
        layout_of(after).organised(),
        loaded.is_final_gadget <==> forall|g: u64| #[trigger]
            reachable(after.gadgets@, gid, g) ==> {
                &&& after.gadgets@.contains_key(g)
                &&& after.gadgets@[g].outcomes is Some
                &&& closed(after.gadgets@[g])
            },
        loaded.is_final_gadget ==> all_closed(after.gadgets@, gid),
{
    let (b, a) = (layout_of(before), layout_of(after));
    let l = b.cluster(gid);
    assert forall|g: u64| #[trigger] a.gadgets.contains_key(g) <==> b.gadgets.contains_key(g) by {
        assert(a.gadgets.dom().contains(g) <==> b.gadgets.dom().contains(g));
    }
    assert(b.counted(b.cluster(gid)));
    assert forall|g: u64| a.gadgets.contains_key(g) implies #[trigger] a.cluster(g) == b.cluster(g) by {}
    assert(b.unloaded_in(l).contains(gid));
    assert(a.unloaded_in(l) =~= b.unloaded_in(l).remove(gid));
    assert forall|m: usize| #[trigger] a.open_in(m) =~= b.open_in(m) by {
        assert forall|port: (u64, u64)| a.open_in(m).contains(port) <==> b.open_in(m).contains(port) by {
            assert(a.gadgets.contains_key(port.0) <==> b.gadgets.contains_key(port.0));
        }
    }
    assert(a.counted(l));
    assert forall|g: u64| #[trigger] a.gadgets.contains_key(g) implies a.counted(a.cluster(g)) by {
        let m = a.cluster(g);
        if m != l {
            assert(b.gadgets.contains_key(g));
            assert(b.counted(b.cluster(g)));
            assert(a.unloaded_in(m) =~= b.unloaded_in(m));
        }
    }
    assert forall|x: u64, y: u64| a.gadgets.contains_key(x) implies (#[trigger] reachable(a.gadgets, x, y)
        <==> a.gadgets.contains_key(y) && a.cluster(x) == a.cluster(y)) by {
        lemma_same_reach(b.gadgets, a.gadgets, x, y);
        assert(b.gadgets.contains_key(x));
        assert(reachable(b.gadgets, x, y) <==> b.gadgets.contains_key(y) && b.cluster(x) == b.cluster(y));
    }
    assert(a.organised());
    let missing = a.unloaded_in(l);
    let open = a.open_in(l);
    assert(a.clusters.payload[l as int] == with_loaded(b.clusters.payload[l as int]));
    if loaded.is_final_gadget {
        missing.lemma_len0_is_empty();
        open.lemma_len0_is_empty();
        assert forall|g: u64| #[trigger] reachable(after.gadgets@, gid, g) implies after.gadgets@.contains_key(g)
            && after.gadgets@[g].outcomes is Some && closed(after.gadgets@[g]) by {
            assert(!missing.contains(g));
            assert forall|i: int| 0 <= i < after.gadgets@[g].outputs@.len() implies #[trigger] after.gadgets@[g].outputs@[i] is Some by {
                assert(after.gadgets@[g].outputs@.len() == after.gadgets@[g].outputs.len());
                assert(!open.contains((g, i as u64)));
                assert(((i as u64) as int) == i);
            }
        }
    } else if forall|g: u64| #[trigger]
        reachable(after.gadgets@, gid, g) ==> after.gadgets@.contains_key(g) && after.gadgets@[g].outcomes is Some && closed(
            after.gadgets@[g],
        ) {
        assert(missing =~= Set::empty()) by {
            assert forall|g: u64| !missing.contains(g) by {
                if missing.contains(g) {
                    assert(reachable(after.gadgets@, gid, g));
                }
            }
        }
        assert(open =~= Set::empty()) by {
            assert forall|port: (u64, u64)| !open.contains(port) by {
                if open.contains(port) {
                    assert(reachable(after.gadgets@, gid, port.0));
                    assert(after.gadgets@[port.0].outputs@[port.1 as int] is Some);
                }
            }
        }
    }
}

/// Taking a part out of the program keeps the rest organised.
pub proof fn law_taking_a_part_keeps_organisation(
    before: MonolithicCoordinator,
    after: MonolithicCoordinator,
    gid: u64,
    part: TakenSubgraph,
)
    requires
        before.gadgets@.contains_key(gid),
        is_subgraph(before.gadgets@, before.check_models@, before.error_models@, gid, part.gids@),
        after.gadgets@ == before.gadgets@.remove_keys(part.gids@.to_set()),
        after.gid_to_union_index == before.gid_to_union_index,
        after.pending_subgraphs == before.pending_subgraphs,
        layout_of(before).organised(),
    ensures
        layout_of(after).organised(),
{
    let (b, a) = (layout_of(before), layout_of(after));
    assert forall|g: u64| #[trigger] a.gadgets.contains_key(g) <==> b.gadgets.contains_key(g) && b.cluster(g) != b.cluster(
        gid,
    ) by {
        assert(part.gids@.to_set().contains(g) <==> part.gids@.contains(g));
        assert(part.gids@.contains(g) <==> reachable(b.gadgets, gid, g));
    }
    assert forall|g: u64| #[trigger] a.gadgets.contains_key(g) implies a.counted(a.cluster(g)) by {
        assert(b.gadgets.contains_key(g));
        let l = a.cluster(g);
        assert(b.counted(b.cluster(g)));
        assert(a.unloaded_in(l) =~= b.unloaded_in(l));
        assert(a.open_in(l) =~= b.open_in(l)) by {
            assert forall|port: (u64, u64)| a.open_in(l).contains(port) <==> b.open_in(l).contains(port) by {
                assert(a.gadgets.contains_key(port.0) <==> b.gadgets.contains_key(port.0) && b.cluster(port.0) != b.cluster(gid));
            }
        }
    }
    assert forall|x: u64, y: u64| a.gadgets.contains_key(x) implies (#[trigger] reachable(a.gadgets, x, y)
        <==> a.gadgets.contains_key(y) && a.cluster(x) == a.cluster(y)) by {
        assert(b.gadgets.contains_key(x));
        if reachable(a.gadgets, x, y) {
            assert forall|g: u64, p: u64|
                a.gadgets.contains_key(g) && #[trigger] a.gadgets[g].has_peer(p) implies b.gadgets.contains_key(g)
                && b.gadgets[g].has_peer(p) by {}
            lemma_reachable_stays(a.gadgets, b.gadgets, x, y);
            assert(b.cluster(x) == b.cluster(y));
        }
        if a.gadgets.contains_key(y) && a.cluster(x) == a.cluster(y) {
            assert(reachable(b.gadgets, x, y));
            let path = choose|path: Seq<u64>| #[trigger] is_path(b.gadgets, path) && path[0] == x && path.last() == y;
            lemma_reachable_self(b.gadgets, x);
            assert forall|i: int| 0 <= i < path.len() - 1 implies a.gadgets.contains_key(#[trigger] path[i])
                && a.gadgets[path[i]].has_peer(path[i + 1]) by {
                lemma_reachable_along(b.gadgets, x, path, i);
                assert(b.gadgets.contains_key(path[i]));
                assert(b.cluster(path[i]) == b.cluster(x));
            }
            assert(is_path(a.gadgets, path));
        }
    }
}

} // verus!
