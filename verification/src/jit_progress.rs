//! What the error models of compiled gadgets wait for.
use crate::collections::{IdSet, PairSet};
use vstd::prelude::*;

verus! {

/// What error models wait for: a gadget for outputs of its own to be connected, and
/// for what other gadgets make of their open checks.
pub struct CompileWaits {
    /// (gadget, output port) pairs
    pub output_ports: PairSet,
    /// (gadget, peer) pairs
    pub dependencies: PairSet,
    /// the gadgets whose error model is ready
    pub ready: IdSet,
    /// changes with every update
    pub revision: u64,
}

/// The value of [`CompileWaits`], without the revision.
#[verifier::ext_equal]
pub struct WaitsSpec {
    pub output_ports: Set<(u64, u64)>,
    pub dependencies: Set<(u64, u64)>,
    pub ready: Set<u64>,
}

impl WaitsSpec {
    /// Nothing waits and nothing is ready.
    pub open spec fn none() -> WaitsSpec {
        WaitsSpec { output_ports: Set::empty(), dependencies: Set::empty(), ready: Set::empty() }
    }

    /// The gadgets form a chain in which each but the last is not ready and waits for
    /// the next.
    pub open spec fn is_chain(self, chain: Seq<u64>) -> bool {
        &&& chain.len() > 0
        &&& forall|i: int| 0 <= i < chain.len() - 1 ==> #[trigger] self.waits_at(chain, i)
    }

    /// Gadget `i` of a chain is not ready and waits for the next.
    pub open spec fn waits_at(self, chain: Seq<u64>, i: int) -> bool {
        !self.ready.contains(chain[i]) && self.dependencies.contains((chain[i], chain[i + 1]))
    }

    /// Some root waits for `gid`, if only through others.
    pub open spec fn awaited(self, roots: Seq<u64>, gid: u64) -> bool {
        exists|chain: Seq<u64>| #[trigger] self.is_chain(chain) && roots.contains(chain[0]) && chain.last() == gid
    }

    /// An output port that some root waits for.
    pub open spec fn blocks(self, roots: Seq<u64>, blocker: (u64, u64)) -> bool {
        self.output_ports.contains(blocker) && !self.ready.contains(blocker.0) && self.awaited(roots, blocker.0)
    }
}

/// The revision after an update.
pub open spec fn next_revision(revision: u64) -> u64 {
    vstd::wrapping::u64_specs::wrapping_add(revision, 1)
}

/// How far decoding some gadgets is.
#[derive(Debug)]
pub enum DecodeProgressState {
    /// every error model is ready
    Ready,
    /// some error model is not ready, and will be without a new gadget
    Pending,
    /// these (gadget, port) outputs are to be connected first
    NeedsGraph(Vec<(u64, u64)>),
}

/// The order of pairs.
pub open spec fn pair_before(a: (u64, u64), b: (u64, u64)) -> bool {
    a.0 < b.0 || (a.0 == b.0 && a.1 < b.1)
}

/// A list of pairs in order, each once.
pub open spec fn pairs_ordered(list: Seq<(u64, u64)>) -> bool {
    forall|i: int, j: int| 0 <= i < j < list.len() ==> pair_before(#[trigger] list[i], #[trigger] list[j])
}

/// Inserts a pair into an ordered list.
fn insert_ordered(list: &mut Vec<(u64, u64)>, pair: (u64, u64))
    requires
        pairs_ordered(old(list)@),
    ensures
        pairs_ordered(final(list)@),
        forall|p: (u64, u64)| #[trigger] final(list)@.contains(p) <==> old(list)@.contains(p) || p == pair,
{
    let ghost before = list@;
    let mut at: usize = 0;
    while at < list.len() && (list[at].0 < pair.0 || (list[at].0 == pair.0 && list[at].1 < pair.1))
        invariant
            at <= list@.len(),
            list@ == before,
            forall|i: int| 0 <= i < at ==> pair_before(#[trigger] list@[i], pair),
        decreases list@.len() - at,
    {
        at += 1;
    }
    if at < list.len() && list[at].0 == pair.0 && list[at].1 == pair.1 {
        assert(list@[at as int] == pair);
        return ;
    }
    list.insert(at, pair);
    proof {
        assert forall|p: (u64, u64)| #[trigger] list@.contains(p) <==> before.contains(p) || p == pair by {
            if before.contains(p) {
                let i = before.index_of(p);
                if i < at {
                    assert(list@[i] == p);
                } else {
                    assert(list@[i + 1] == p);
                }
            }
            if p == pair {
                assert(list@[at as int] == p);
            }
            if list@.contains(p) && p != pair {
                let i = list@.index_of(p);
                if i < at {
                    assert(before[i] == p);
                } else {
                    assert(before[i - 1] == p);
                }
            }
        }
        assert forall|i: int, j: int| 0 <= i < j < list@.len() implies pair_before(#[trigger] list@[i], #[trigger] list@[j]) by {
            let a = if i < at {
                i
            } else {
                i - 1
            };
            let b = if j < at {
                j
            } else {
                j - 1
            };
            if at < before.len() {
                assert(!pair_before(before[at as int], pair) && before[at as int] != pair);
            }
            if i < at && j > at {
                assert(pair_before(before[a], before[b]));
            } else if i == at {
                if b > at {
                    assert(pair_before(before[at as int], before[b]));
                }
            }
        }
    }
}

impl CompileWaits {
    /// The waits as a mathematical value.
    pub open spec fn view(&self) -> WaitsSpec {
        WaitsSpec { output_ports: self.output_ports@, dependencies: self.dependencies@, ready: self.ready@ }
    }

    /// Nothing waits and nothing is ready.
    pub fn new() -> (waits: CompileWaits)
        ensures
            waits@ == WaitsSpec::none(),
            waits.revision == 0,
    {
        CompileWaits { output_ports: PairSet::new(), dependencies: PairSet::new(), ready: IdSet::new(), revision: 0 }
    }

    /// Notes that something changed.
    fn bump_progress(&mut self)
        ensures
            final(self)@ == old(self)@,
            final(self).revision == next_revision(old(self).revision),
    {
        self.revision = self.revision.wrapping_add(1);
    }

    /// Forgets all waits.
    pub fn clear(&mut self)
        ensures
            final(self)@ == WaitsSpec::none(),
            final(self).revision == next_revision(old(self).revision),
    {
        self.output_ports = PairSet::new();
        self.dependencies = PairSet::new();
        self.ready = IdSet::new();
        self.bump_progress();
    }

    /// Notes whether a gadget waits for one of its outputs to be connected.
    pub fn set_output_wait(&mut self, gid: u64, port: u64, waiting: bool)
        ensures
            final(self)@ == (WaitsSpec {
                output_ports: if waiting {
                    old(self).output_ports@.insert((gid, port))
                } else {
                    old(self).output_ports@.remove((gid, port))
                },
                ..old(self)@
            }),
            final(self).revision == next_revision(old(self).revision),
    {
        if waiting {
            self.output_ports.insert((gid, port));
        } else {
            self.output_ports.remove((gid, port));
        }
        self.bump_progress();
    }

    /// Notes whether a gadget waits for what a peer makes of its open checks.
    pub fn set_dependency_wait(&mut self, gid: u64, peer: u64, waiting: bool)
        ensures
            final(self)@ == (WaitsSpec {
                dependencies: if waiting {
                    old(self).dependencies@.insert((gid, peer))
                } else {
                    old(self).dependencies@.remove((gid, peer))
                },
                ..old(self)@
            }),
            final(self).revision == next_revision(old(self).revision),
    {
        if waiting {
            self.dependencies.insert((gid, peer));
        } else {
            self.dependencies.remove((gid, peer));
        }
        self.bump_progress();
    }

    /// Notes that the error model of a gadget is ready.
    pub fn mark_error_model_ready(&mut self, gid: u64)
        ensures
            final(self)@ == (WaitsSpec { ready: old(self).ready@.insert(gid), ..old(self)@ }),
            final(self).revision == next_revision(old(self).revision),
    {
        self.ready.insert(gid);
        self.bump_progress();
    }

    /// What decoding some gadgets waits for: outputs to be connected, in order; else
    /// whether all their error models are ready.
    pub fn decode_progress_state_for_roots(&self, roots: &Vec<u64>) -> (state: DecodeProgressState)
        ensures
            match state {
                DecodeProgressState::NeedsGraph(blockers) => {
                    &&& blockers@.len() > 0
                    &&& pairs_ordered(blockers@)
                    &&& forall|b: (u64, u64)| #[trigger] blockers@.contains(b) <==> self@.blocks(roots@, b)
                },
                DecodeProgressState::Ready => {
                    &&& forall|b: (u64, u64)| !#[trigger] self@.blocks(roots@, b)
                    &&& forall|i: int| 0 <= i < roots@.len() ==> self@.ready.contains(#[trigger] roots@[i])
                },
                DecodeProgressState::Pending => {
                    &&& forall|b: (u64, u64)| !#[trigger] self@.blocks(roots@, b)
                    &&& exists|i: int| 0 <= i < roots@.len() && !self@.ready.contains(#[trigger] roots@[i])
                },
            },
    {
        let ghost spec = self@;
        let peers = self.dependencies.items();
        let ports = self.output_ports.items();
        let visited = self.awaited_gadgets(roots, &peers);
        let mut blockers: Vec<(u64, u64)> = Vec::new();
        let mut n: usize = 0;
        while n < ports.len()
            invariant
                n <= ports@.len(),
                spec == self@,
                forall|g: u64| #[trigger] visited@.contains(g) <==> spec.awaited(roots@, g),
                pairs_ordered(blockers@),
                forall|b: (u64, u64)| #[trigger] blockers@.contains(b) <==> (ports@.take(n as int).contains(b) && !spec.ready.contains(b.0)
                    && spec.awaited(roots@, b.0)),
            decreases ports@.len() - n,
        {
            let pair = ports[n];
            let ghost before = blockers@;
            let counts = !self.ready.has(pair.0) && contains_id(&visited, pair.0);
            if counts {
                insert_ordered(&mut blockers, pair);
            }
            proof {
                assert(ports@.take(n as int + 1) =~= ports@.take(n as int).push(pair));
                assert forall|b: (u64, u64)| #[trigger] blockers@.contains(b) <==> (ports@.take(n as int + 1).contains(b)
                    && !spec.ready.contains(b.0) && spec.awaited(roots@, b.0)) by {
                    let longer = ports@.take(n as int + 1);
                    if longer.contains(b) && b != pair {
                        let i = longer.index_of(b);
                        assert(ports@.take(n as int)[i] == b);
                    }
                    if ports@.take(n as int).contains(b) {
                        let i = ports@.take(n as int).index_of(b);
                        assert(longer[i] == b);
                    }
                    if b == pair {
                        assert(longer[n as int] == b);
                        assert(visited@.contains(pair.0) <==> spec.awaited(roots@, pair.0));
                    }
                }
            }
            n += 1;
        }
        proof {
            assert(ports@.take(n as int) =~= ports@);
            assert forall|b: (u64, u64)| #[trigger] blockers@.contains(b) <==> spec.blocks(roots@, b) by {
                assert(ports@.contains(b) <==> self.output_ports@.contains(b));
            }
        }
        if blockers.len() > 0 {
            return DecodeProgressState::NeedsGraph(blockers);
        }
        proof {
            assert forall|b: (u64, u64)| !#[trigger] spec.blocks(roots@, b) by {
                assert(!blockers@.contains(b));
            }
        }
        let mut i: usize = 0;
        while i < roots.len()
            invariant
                i <= roots@.len(),
                spec == self@,
                forall|k: int| 0 <= k < i ==> spec.ready.contains(#[trigger] roots@[k]),
                forall|b: (u64, u64)| !#[trigger] spec.blocks(roots@, b),
            decreases roots@.len() - i,
        {
            if !self.ready.has(roots[i]) {
                assert(!spec.ready.contains(roots@[i as int]));
                return DecodeProgressState::Pending;
            }
            i += 1;
        }
        DecodeProgressState::Ready
    }

    /// What decoding one gadget waits for.
    pub fn decode_progress_state(&self, root: u64) -> (state: DecodeProgressState)
        ensures
            match state {
                DecodeProgressState::NeedsGraph(blockers) => {
                    &&& blockers@.len() > 0
                    &&& pairs_ordered(blockers@)
                    &&& forall|b: (u64, u64)| #[trigger] blockers@.contains(b) <==> self@.blocks(seq![root], b)
                },
                DecodeProgressState::Ready => {
                    &&& forall|b: (u64, u64)| !#[trigger] self@.blocks(seq![root], b)
                    &&& self@.ready.contains(root)
                },
                DecodeProgressState::Pending => {
                    &&& forall|b: (u64, u64)| !#[trigger] self@.blocks(seq![root], b)
                    &&& !self@.ready.contains(root)
                },
            },
    {
        let mut roots: Vec<u64> = Vec::new();
        roots.push(root);
        assert(roots@ =~= seq![root]);
        assert(roots@[0] == root);
        self.decode_progress_state_for_roots(&roots)
    }

    /// Adds the gadgets that a gadget waits for to a list of awaited gadgets.
    fn visit_peers(&self, visited: &mut Vec<u64>, gid: u64, peers: &Vec<(u64, u64)>, roots: &Vec<u64>)
        requires
            forall|p: (u64, u64)| #[trigger] peers@.contains(p) <==> self.dependencies@.contains(p),
            old(visited)@.no_duplicates(),
            !self.ready@.contains(gid),
            self@.awaited(roots@, gid),
            forall|k: int| 0 <= k < old(visited)@.len() ==> self@.awaited(roots@, #[trigger] old(visited)@[k]),
        ensures
            final(visited)@.no_duplicates(),
            old(visited)@.is_prefix_of(final(visited)@),
            forall|k: int| 0 <= k < final(visited)@.len() ==> self@.awaited(roots@, #[trigger] final(visited)@[k]),
            forall|peer: u64| #[trigger] self.dependencies@.contains((gid, peer)) ==> final(visited)@.contains(peer),
    {
        let ghost spec = self@;
        let ghost start = visited@;
        let mut n: usize = 0;
        while n < peers.len()
            invariant
                n <= peers@.len(),
                spec == self@,
                !spec.ready.contains(gid),
                spec.awaited(roots@, gid),
                start == old(visited)@,
                start.is_prefix_of(visited@),
                visited@.no_duplicates(),
                forall|p: (u64, u64)| #[trigger] peers@.contains(p) <==> self.dependencies@.contains(p),
                forall|k: int| 0 <= k < visited@.len() ==> spec.awaited(roots@, #[trigger] visited@[k]),
                forall|k: int| 0 <= k < n && (#[trigger] peers@[k]).0 == gid ==> visited@.contains(peers@[k].1),
            decreases peers@.len() - n,
        {
            let pair = peers[n];
            let ghost before = visited@;
            if pair.0 == gid {
                proof {
                    assert(peers@.contains(pair));
                    lemma_peer_awaited(spec, roots@, gid, pair.1);
                }
                visit(visited, pair.1);
            }
            proof {
                assert forall|k: int| 0 <= k < n + 1 && (#[trigger] peers@[k]).0 == gid implies visited@.contains(peers@[k].1) by {
                    if k < n {
                        assert(before.contains(peers@[k].1));
                    }
                }
                assert forall|k: int| 0 <= k < visited@.len() implies spec.awaited(roots@, #[trigger] visited@[k]) by {
                    if k < before.len() {
                        assert(before[k] == visited@[k]);
                    }
                }
            }
            n += 1;
        }
        proof {
            assert forall|peer: u64| #[trigger] self.dependencies@.contains((gid, peer)) implies visited@.contains(peer) by {
                assert(peers@.contains((gid, peer)));
                let i = peers@.index_of((gid, peer));
                assert(peers@[i].0 == gid);
            }
        }
    }

    /// The gadgets that the roots wait for, if only through others.
    fn awaited_gadgets(&self, roots: &Vec<u64>, peers: &Vec<(u64, u64)>) -> (visited: Vec<u64>)
        requires
            forall|p: (u64, u64)| #[trigger] peers@.contains(p) <==> self.dependencies@.contains(p),
        ensures
            forall|g: u64| #[trigger] visited@.contains(g) <==> self@.awaited(roots@, g),
    {
        let ghost spec = self@;
        let mut visited = self.visited_roots(roots);
        let mut done: usize = 0;
        while done < visited.len()
            invariant
                done <= visited@.len(),
                spec == self@,
                visited@.no_duplicates(),
                forall|p: (u64, u64)| #[trigger] peers@.contains(p) <==> self.dependencies@.contains(p),
                forall|k: int| 0 <= k < roots@.len() ==> visited@.contains(#[trigger] roots@[k]),
                forall|k: int| 0 <= k < visited@.len() ==> spec.awaited(roots@, #[trigger] visited@[k]),
                closed_upto(spec, visited@, done as int),
            decreases 0x1_0000_0000_0000_0000 - visited@.len(), visited@.len() - done,
        {
            let gid: u64 = visited[done];
            let ghost start = visited@;
            if !self.ready.has(gid) {
                assert(spec.awaited(roots@, visited@[done as int]));
                self.visit_peers(&mut visited, gid, peers, roots);
            }
            proof {
                lemma_ids_bounded(visited@);
                assert forall|k: int| 0 <= k < roots@.len() implies visited@.contains(#[trigger] roots@[k]) by {
                    assert(start.contains(roots@[k]));
                    let i = start.index_of(roots@[k]);
                    assert(visited@[i] == start[i]);
                }
                lemma_closed_step(spec, start, visited@, done as int);
            }
            done += 1;
        }
        proof {
            lemma_closed_is_awaited(spec, roots@, visited@);
        }
        visited
    }

    /// The roots, each once.
    fn visited_roots(&self, roots: &Vec<u64>) -> (visited: Vec<u64>)
        ensures
            visited@.no_duplicates(),
            forall|k: int| 0 <= k < roots@.len() ==> visited@.contains(#[trigger] roots@[k]),
            forall|k: int| 0 <= k < visited@.len() ==> self@.awaited(roots@, #[trigger] visited@[k]),
    {
        let ghost spec = self@;
        let mut visited: Vec<u64> = Vec::new();
        let mut r: usize = 0;
        while r < roots.len()
            invariant
                r <= roots@.len(),
                spec == self@,
                visited@.no_duplicates(),
                forall|k: int| 0 <= k < r ==> visited@.contains(#[trigger] roots@[k]),
                forall|k: int| 0 <= k < visited@.len() ==> spec.awaited(roots@, #[trigger] visited@[k]),
            decreases roots@.len() - r,
        {
            let ghost before = visited@;
            proof {
                let chain = seq![roots@[r as int]];
                assert(roots@.contains(chain[0]));
                assert(spec.is_chain(chain));
                assert(spec.awaited(roots@, roots@[r as int]));
            }
            visit(&mut visited, roots[r]);
            proof {
                assert forall|k: int| 0 <= k < r + 1 implies visited@.contains(#[trigger] roots@[k]) by {
                    if k < r {
                        assert(before.contains(roots@[k]));
                    }
                }
                assert forall|k: int| 0 <= k < visited@.len() implies spec.awaited(roots@, #[trigger] visited@[k]) by {
                    if k < before.len() {
                        assert(before[k] == visited@[k]);
                    } else {
                        assert(visited@[k] == roots@[r as int]);
                    }
                }
            }
            r += 1;
        }
        visited
    }
}

/// What the first `n` gadgets of a list wait for is in the list, where they are not
/// ready.
spec fn closed_upto(spec: WaitsSpec, list: Seq<u64>, n: int) -> bool {
    forall|k: int, peer: u64|
        0 <= k < n && !spec.ready.contains(list[k]) && #[trigger] spec.dependencies.contains((list[k], peer)) ==> list.contains(
            peer,
        )
}

/// A list that grew by what one more gadget waits for.
proof fn lemma_closed_step(spec: WaitsSpec, before: Seq<u64>, after: Seq<u64>, n: int)
    requires
        0 <= n < before.len(),
        closed_upto(spec, before, n),
        before.is_prefix_of(after),
        spec.ready.contains(before[n]) || forall|peer: u64| #[trigger]
            spec.dependencies.contains((before[n], peer)) ==> after.contains(peer),
    ensures
        closed_upto(spec, after, n + 1),
{
    assert forall|k: int, peer: u64|
        0 <= k < n + 1 && !spec.ready.contains(after[k]) && #[trigger] spec.dependencies.contains((after[k], peer)) implies after.contains(
        peer,
    ) by {
        assert(after[k] == before[k]);
        if k < n {
            assert(before.contains(peer));
            let i = before.index_of(peer);
            assert(after[i] == peer);
        }
    }
}

/// A closed list of awaited gadgets that holds the roots holds all awaited gadgets.
proof fn lemma_closed_is_awaited(spec: WaitsSpec, roots: Seq<u64>, visited: Seq<u64>)
    requires
        forall|k: int| 0 <= k < roots.len() ==> visited.contains(#[trigger] roots[k]),
        forall|k: int| 0 <= k < visited.len() ==> spec.awaited(roots, #[trigger] visited[k]),
        closed_upto(spec, visited, visited.len() as int),
    ensures
        forall|g: u64| #[trigger] visited.contains(g) <==> spec.awaited(roots, g),
{
    assert forall|g: u64| #[trigger] visited.contains(g) <==> spec.awaited(roots, g) by {
        if visited.contains(g) {
            let i = visited.index_of(g);
            assert(spec.awaited(roots, visited[i]));
        }
        if spec.awaited(roots, g) {
            let chain = choose|chain: Seq<u64>| #[trigger] spec.is_chain(chain) && roots.contains(chain[0]) && chain.last() == g;
            let i = roots.index_of(chain[0]);
            assert(visited.contains(roots[i]));
            lemma_closed_holds_chain(spec, chain, visited, chain.len() as int - 1);
        }
    }
}

/// What an awaited gadget waits for is awaited.
proof fn lemma_peer_awaited(spec: WaitsSpec, roots: Seq<u64>, gid: u64, peer: u64)
    requires
        spec.awaited(roots, gid),
        !spec.ready.contains(gid),
        spec.dependencies.contains((gid, peer)),
    ensures
        spec.awaited(roots, peer),
{
    let chain = choose|chain: Seq<u64>| #[trigger] spec.is_chain(chain) && roots.contains(chain[0]) && chain.last() == gid;
    let longer = chain.push(peer);
    assert forall|i: int| 0 <= i < longer.len() - 1 implies #[trigger] spec.waits_at(longer, i) by {
        if i < chain.len() - 1 {
            assert(spec.waits_at(chain, i));
            assert(chain[i] == longer[i]);
            assert(chain[i + 1] == longer[i + 1]);
        } else {
            assert(longer[i] == gid);
        }
    }
    assert(spec.is_chain(longer));
    assert(longer.last() == peer);
    assert(longer[0] == chain[0]);
}

/// A set closed under waiting holds every chain that starts in it.
proof fn lemma_closed_holds_chain(spec: WaitsSpec, chain: Seq<u64>, closed: Seq<u64>, n: int)
    requires
        spec.is_chain(chain),
        0 <= n < chain.len(),
        closed.contains(chain[0]),
        closed_upto(spec, closed, closed.len() as int),
    ensures
        closed.contains(chain[n]),
    decreases n,
{
    if n > 0 {
        lemma_closed_holds_chain(spec, chain, closed, n - 1);
        let k = closed.index_of(chain[n - 1]);
        assert(spec.waits_at(chain, n - 1));
        assert(spec.dependencies.contains((closed[k], chain[n])));
    }
}

/// There are no more different ids than 64 bits can tell apart.
pub proof fn lemma_ids_bounded(ids: Seq<u64>)
    requires
        ids.no_duplicates(),
    ensures
        ids.len() <= 0x1_0000_0000_0000_0000,
{
    let all = vstd::set_lib::set_int_range(0, 0x1_0000_0000_0000_0000);
    vstd::set_lib::lemma_int_range(0, 0x1_0000_0000_0000_0000);
    let ints = ids.map_values(|id: u64| id as int);
    assert(ints.no_duplicates()) by {
        assert forall|i: int, j: int| 0 <= i < ints.len() && 0 <= j < ints.len() && i != j implies ints[i] != ints[j] by {
            assert(ids[i] != ids[j]);
        }
    }
    ints.unique_seq_to_set();
    assert(ints.to_set().subset_of(all)) by {
        assert forall|x: int| ints.to_set().contains(x) implies all.contains(x) by {
            let i = ints.index_of(x);
            assert(ints[i] == ids[i] as int);
        }
    }
    vstd::set_lib::lemma_len_subset(ints.to_set(), all);
}

/// Whether a list holds an id.
fn contains_id(ids: &Vec<u64>, id: u64) -> (found: bool)
    ensures
        found == ids@.contains(id),
{
    let mut i: usize = 0;
    while i < ids.len()
        invariant
            i <= ids@.len(),
            forall|k: int| 0 <= k < i ==> ids@[k] != id,
        decreases ids@.len() - i,
    {
        if ids[i] == id {
            assert(ids@[i as int] == id);
            return true;
        }
        i += 1;
    }
    false
}

/// Appends an id unless it is there.
fn visit(ids: &mut Vec<u64>, id: u64)
    requires
        old(ids)@.no_duplicates(),
    ensures
        final(ids)@.no_duplicates(),
        final(ids)@ == old(ids)@ || final(ids)@ == old(ids)@.push(id),
        final(ids)@.contains(id),
        forall|g: u64| #[trigger] old(ids)@.contains(g) ==> final(ids)@.contains(g),
{
    let ghost before = ids@;
    if !contains_id(ids, id) {
        ids.push(id);
        proof {
            assert(ids@[before.len() as int] == id);
            assert forall|g: u64| #[trigger] before.contains(g) implies ids@.contains(g) by {
                let i = before.index_of(g);
                assert(ids@[i] == g);
            }
        }
    }
}

/// A root that is ready waits for nothing.
pub proof fn law_ready_root_is_not_blocked(waits: WaitsSpec, root: u64, blocker: (u64, u64))
    requires
        waits.ready.contains(root),
    ensures
        !waits.blocks(seq![root], blocker),
{
    if waits.blocks(seq![root], blocker) {
        let chain = choose|chain: Seq<u64>| #[trigger]
            waits.is_chain(chain) && seq![root].contains(chain[0]) && chain.last() == blocker.0;
        assert(chain[0] == root);
        if chain.len() > 1 {
            assert(waits.waits_at(chain, 0));
        }
    }
}

} // verus!
