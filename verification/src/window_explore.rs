//! Exploration of decoding windows.
//!
//! A window is explored from a center gadget in breadth-first order, first the
//! mandatory zone, which waits for outputs that are not connected yet, then the
//! lookahead zone, which takes what is there.
use crate::bin::Connector;
use crate::collections::{IdMap, IdSet};
use crate::network::{CheckModel, Gadget};
use crate::registry::Registry;
use crate::window_region::{
    commit_region_of, committing_cids_of, decoder_window_of, hops, hops_upto, in_commit_region, in_decoder_window, is_walk,
    law_commit_region_inside_window, lemma_push_back, lemma_push_front, on_boundary, region_cids, walk_from_center,
};
use std::collections::VecDeque;
use vstd::prelude::*;

verus! {

/// The zone in which a gadget was found.
#[derive(Debug, Clone, Copy, PartialEq, Eq, Structural)]
pub enum ExplorePhase {
    MandatoryZone,
    LookaheadZone,
}

/// What is known of a window.
pub struct ExploredWindow {
    /// the gadget that the window is explored for
    pub center_gid: u64,
    /// every gadget found
    pub gadgets: IdSet,
    /// the distance of each of them from the center
    pub center_distance: IdMap,
    /// the zone in which each of them was found
    pub phase: Registry<ExplorePhase>,
    /// the gadgets to go on from
    pub frontier: VecDeque<u64>,
    /// the gadgets selected for commit
    pub commit_region: IdSet,
    /// the check models of the commit region
    pub committing_cids: IdSet,
    /// the gadgets that the decoder needs
    pub decoder_window: IdSet,
}

/// Whether a gadget may be taken into the lookahead zone: it measures nothing, has no
/// check model, or its syndrome is known.
pub open spec fn syndrome_ready(gadgets: Map<u64, Gadget>, check_models: Map<u64, CheckModel>, gid: u64) -> bool {
    ||| gadgets[gid].is_free_hop
    ||| gadgets[gid].binding_cid is None
    ||| check_models.contains_key(gadgets[gid].binding_cid->0)
        && check_models[gadgets[gid].binding_cid->0].syndrome is Some
}

/// Whether exploration takes a gadget: in the lookahead zone only ready ones.
pub open spec fn admitted(gadgets: Map<u64, Gadget>, check_models: Option<Map<u64, CheckModel>>, gid: u64) -> bool {
    check_models matches Some(m) ==> syndrome_ready(gadgets, m, gid)
}

/// Every gadget within reach of `gid` is found, and is labelled with the way through
/// `gid` or a shorter one.
pub open spec fn expanded(
    gadgets: Map<u64, Gadget>,
    check_models: Option<Map<u64, CheckModel>>,
    dist: Map<u64, usize>,
    limit: int,
    gid: u64,
) -> bool {
    forall|peer: u64| #[trigger]
        gadgets[gid].has_peer(peer) && gadgets.contains_key(peer) && admitted(gadgets, check_models, peer) && dist[gid]
            + hops(gadgets, peer) <= limit ==> dist.contains_key(peer) && dist[peer] <= dist[gid] + hops(gadgets, peer)
}

/// All connections of a gadget are made, and lead to gadgets of the program.
pub open spec fn connected(gadgets: Map<u64, Gadget>, gid: u64) -> bool {
    &&& forall|i: int| 0 <= i < gadgets[gid].outputs@.len() ==> (#[trigger] gadgets[gid].outputs@[i]) is Some
    &&& forall|peer: u64| #[trigger] gadgets[gid].has_peer(peer) ==> gadgets.contains_key(peer)
}

/// A walk from the center, inside what is found, of the labelled length.
pub open spec fn reached(gadgets: Map<u64, Gadget>, dist: Map<u64, usize>, center: u64, gid: u64) -> bool {
    exists|walk: Seq<u64>| #[trigger] walk_from_center(gadgets, dist.dom(), walk, center, gid, dist[gid] as int)
}

impl ExploredWindow {
    /// The distances of the gadgets found.
    pub open spec fn dist(&self) -> Map<u64, usize> {
        self.center_distance@
    }

    /// The window is well formed, and everything found has its distance, its zone and a
    /// walk from the center.
    pub open spec fn wf(&self, gadgets: Map<u64, Gadget>) -> bool {
        &&& self.phase.wf()
        &&& self.gadgets@ == self.dist().dom()
        &&& self.phase@.dom() == self.dist().dom()
        &&& self.dist().contains_key(self.center_gid)
        &&& self.dist()[self.center_gid] == 0
        &&& forall|gid: u64| #[trigger] self.dist().contains_key(gid) ==> gadgets.contains_key(gid) && reached(
            gadgets,
            self.dist(),
            self.center_gid,
            gid,
        )
    }

    /// The frontier is in order of distance: it holds distances `level` and
    /// `level + 1`, below `limit`. Nothing found is farther than the next level, and no
    /// free-hop gadget is farther than this one.
    pub open spec fn layered(&self, gadgets: Map<u64, Gadget>, level: int, limit: int) -> bool {
        &&& forall|i: int| 0 <= i < self.frontier@.len() ==> {
            &&& self.dist().contains_key(#[trigger] self.frontier@[i])
            &&& level <= self.dist()[self.frontier@[i]] <= level + 1
            &&& self.dist()[self.frontier@[i]] < limit
        }
        &&& forall|i: int, j: int|
            0 <= i < j < self.frontier@.len() ==> self.dist()[self.frontier@[i]] <= self.dist()[self.frontier@[j]]
        &&& forall|gid: u64| #[trigger] self.dist().contains_key(gid) ==> self.dist()[gid] <= level + 1
        &&& forall|gid: u64| #[trigger] self.dist().contains_key(gid) && gadgets[gid].is_free_hop ==> self.dist()[gid] <= level
    }

    /// Everything found closer than `limit` is expanded, except what is in the frontier
    /// and `current`.
    pub open spec fn expanded_but(
        &self,
        gadgets: Map<u64, Gadget>,
        check_models: Option<Map<u64, CheckModel>>,
        from: int,
        limit: int,
        current: Option<u64>,
    ) -> bool {
        forall|gid: u64| #[trigger]
            self.dist().contains_key(gid) && from <= self.dist()[gid] < limit && !self.frontier@.contains(gid) && current
                != Some(gid) ==> expanded(gadgets, check_models, self.dist(), limit, gid)
    }

    /// The mandatory zone is closed up to the frontier and `current`: everything found
    /// closer than `limit` has all its connections made.
    pub open spec fn closed_but(&self, gadgets: Map<u64, Gadget>, limit: int, current: Option<u64>) -> bool {
        forall|gid: u64| #[trigger]
            self.dist().contains_key(gid) && self.dist()[gid] < limit && !self.frontier@.contains(gid) && current != Some(gid)
                ==> connected(gadgets, gid)
    }

    /// Nothing but the exploration fields differs.
    pub open spec fn same_selection(&self, other: &ExploredWindow) -> bool {
        &&& self.center_gid == other.center_gid
        &&& self.commit_region == other.commit_region
        &&& self.committing_cids == other.committing_cids
        &&& self.decoder_window == other.decoder_window
    }

    /// The window of a center, before anything is explored.
    pub fn start(center_gid: u64, gadgets: &Registry<Gadget>) -> (window: ExploredWindow)
        requires
            gadgets.wf(),
            gadgets@.contains_key(center_gid),
        ensures
            window.center_gid == center_gid,
            window.wf(gadgets@),
            window.dist() == Map::<u64, usize>::empty().insert(center_gid, 0),
            window.phase@ == Map::<u64, ExplorePhase>::empty().insert(center_gid, ExplorePhase::MandatoryZone),
            window.frontier@ == seq![center_gid],
            window.commit_region@ == Set::<u64>::empty(),
            window.committing_cids@ == Set::<u64>::empty(),
            window.decoder_window@ == Set::<u64>::empty(),
    {
        let mut set = IdSet::new();
        set.insert(center_gid);
        let mut dist = IdMap::new();
        dist.insert(center_gid, 0);
        let mut phase: Registry<ExplorePhase> = Registry::new();
        phase.insert(center_gid, ExplorePhase::MandatoryZone);
        let mut frontier: VecDeque<u64> = VecDeque::new();
        frontier.push_back(center_gid);
        let window = ExploredWindow {
            center_gid,
            gadgets: set,
            center_distance: dist,
            phase,
            frontier,
            commit_region: IdSet::new(),
            committing_cids: IdSet::new(),
            decoder_window: IdSet::new(),
        };
        proof {
            assert(window.gadgets@ =~= window.dist().dom());
            assert(window.phase@.dom() =~= window.dist().dom());
            assert(window.frontier@ =~= seq![center_gid]);
            let walk = seq![center_gid];
            reveal_with_fuel(hops_upto, 2);
            assert(is_walk(gadgets@, window.dist().dom(), walk));
            assert(walk_from_center(gadgets@, window.dist().dom(), walk, center_gid, center_gid, 0));
        }
        window
    }

    /// Records a gadget that was found from `current`, and queues it if it is closer
    /// than `limit`: a free-hop gadget, as far as `current`, first.
    fn discover(
        &mut self,
        gadgets: &Registry<Gadget>,
        current: u64,
        peer: u64,
        limit: usize,
        phase: ExplorePhase,
    )
        requires
            gadgets.wf(),
            old(self).wf(gadgets@),
            old(self).dist().contains_key(current),
            old(self).dist()[current] < usize::MAX,
            old(self).layered(gadgets@, old(self).dist()[current] as int, limit as int),
            gadgets@.contains_key(peer),
            gadgets@[current].has_peer(peer),
            !old(self).dist().contains_key(peer),
            old(self).dist()[current] + hops(gadgets@, peer) <= limit,
        ensures
            final(self).wf(gadgets@),
            final(self).same_selection(old(self)),
            final(self).dist() == old(self).dist().insert(
                peer,
                (old(self).dist()[current] + hops(gadgets@, peer)) as usize,
            ),
            final(self).phase@ == old(self).phase@.insert(peer, phase),
            final(self).layered(gadgets@, old(self).dist()[current] as int, limit as int),
            forall|gid: u64| old(self).frontier@.contains(gid) ==> #[trigger] final(self).frontier@.contains(gid),
            forall|gid: u64| #[trigger] final(self).frontier@.contains(gid) ==> old(self).frontier@.contains(gid) || gid == peer,
            old(self).dist()[current] + hops(gadgets@, peer) < limit ==> final(self).frontier@.contains(peer),
            final(self).frontier@.len() <= old(self).frontier@.len() + 1,
    {
        let my: usize = self.center_distance.get(current).unwrap();
        let gadget = gadgets.get(peer).unwrap();
        let step: usize = if gadget.is_free_hop { 0 } else { 1 };
        let way: usize = my + step;
        let ghost dist0 = self.dist();
        let ghost queue0 = self.frontier@;
        let ghost center = self.center_gid;
        self.gadgets.insert(peer);
        self.center_distance.insert(peer, way);
        self.phase.insert(peer, phase);
        proof {
            assert(self.gadgets@ =~= self.dist().dom());
            assert(self.phase@.dom() =~= self.dist().dom());
            assert forall|gid: u64| #[trigger] self.dist().contains_key(gid) implies gadgets@.contains_key(gid) && reached(
                gadgets@,
                self.dist(),
                center,
                gid,
            ) by {
                if gid == peer {
                    assert(dist0.contains_key(current));
                    let walk = choose|walk: Seq<u64>| #[trigger] walk_from_center(gadgets@, dist0.dom(), walk, center, current, dist0[current] as int);
                    lemma_extend_center_walk(gadgets@, dist0, self.dist(), walk, center, current, peer);
                } else {
                    assert(dist0.contains_key(gid));
                    let walk = choose|walk: Seq<u64>| #[trigger] walk_from_center(gadgets@, dist0.dom(), walk, center, gid, dist0[gid] as int);
                    lemma_walk_in_larger(gadgets@, dist0.dom(), self.dist().dom(), walk);
                    assert(walk_from_center(gadgets@, self.dist().dom(), walk, center, gid, self.dist()[gid] as int));
                }
            }
        }
        if way < limit {
            if gadget.is_free_hop {
                self.frontier.push_front(peer);
                proof {
                    lemma_push_front(queue0, self.frontier@, peer);
                    assert forall|i: int| 0 <= i < self.frontier@.len() implies self.dist().contains_key(#[trigger] self.frontier@[i])
                        && my <= self.dist()[self.frontier@[i]] <= my + 1 && self.dist()[self.frontier@[i]] < limit by {
                        if i > 0 {
                            assert(self.frontier@[i] == queue0[i - 1]);
                            assert(dist0.contains_key(queue0[i - 1]));
                        }
                    }
                    assert forall|i: int, j: int| 0 <= i < j < self.frontier@.len() implies self.dist()[self.frontier@[i]] <= self.dist()[self.frontier@[j]] by {
                        assert(self.frontier@[j] == queue0[j - 1]);
                        assert(dist0.contains_key(queue0[j - 1]));
                        if i > 0 {
                            assert(self.frontier@[i] == queue0[i - 1]);
                            assert(dist0.contains_key(queue0[i - 1]));
                        }
                    }
                }
            } else {
                self.frontier.push_back(peer);
                proof {
                    lemma_push_back(queue0, self.frontier@, peer);
                    assert forall|i: int| 0 <= i < self.frontier@.len() implies self.dist().contains_key(#[trigger] self.frontier@[i])
                        && my <= self.dist()[self.frontier@[i]] <= my + 1 && self.dist()[self.frontier@[i]] < limit by {
                        if i < queue0.len() {
                            assert(self.frontier@[i] == queue0[i]);
                            assert(dist0.contains_key(queue0[i]));
                        }
                    }
                    assert forall|i: int, j: int| 0 <= i < j < self.frontier@.len() implies self.dist()[self.frontier@[i]] <= self.dist()[self.frontier@[j]] by {
                        assert(self.frontier@[i] == queue0[i]);
                        assert(dist0.contains_key(queue0[i]));
                        if j < queue0.len() {
                            assert(self.frontier@[j] == queue0[j]);
                            assert(dist0.contains_key(queue0[j]));
                        }
                    }
                }
            }
        } else {
            proof {
                assert forall|i: int| 0 <= i < self.frontier@.len() implies self.dist().contains_key(#[trigger] self.frontier@[i])
                    && my <= self.dist()[self.frontier@[i]] <= my + 1 && self.dist()[self.frontier@[i]] < limit by {
                    assert(dist0.contains_key(queue0[i]));
                }
                assert forall|i: int, j: int| 0 <= i < j < self.frontier@.len() implies self.dist()[self.frontier@[i]] <= self.dist()[self.frontier@[j]] by {
                    assert(dist0.contains_key(queue0[i]));
                    assert(dist0.contains_key(queue0[j]));
                }
            }
        }
    }
}

proof fn lemma_pop_front(before: Seq<u64>, after: Seq<u64>, x: u64)
    requires
        before.len() > 0,
        x == before[0],
        after == before.subrange(1, before.len() as int),
    ensures
        before.contains(x),
        forall|g: u64| #[trigger] before.contains(g) ==> after.contains(g) || g == x,
        forall|g: u64| #[trigger] after.contains(g) ==> before.contains(g),
{
    assert forall|g: u64| #[trigger] before.contains(g) implies after.contains(g) || g == x by {
        let i = choose|i: int| 0 <= i < before.len() && before[i] == g;
        if i > 0 {
            assert(after[i - 1] == g);
        }
    }
    assert forall|g: u64| #[trigger] after.contains(g) implies before.contains(g) by {
        let i = choose|i: int| 0 <= i < after.len() && after[i] == g;
        assert(before[i + 1] == g);
    }
}

proof fn lemma_walk_in_larger(gadgets: Map<u64, Gadget>, small: Set<u64>, large: Set<u64>, walk: Seq<u64>)
    requires
        is_walk(gadgets, small, walk),
        small.subset_of(large),
    ensures
        is_walk(gadgets, large, walk),
{
    assert forall|i: int| 0 <= i < walk.len() implies large.contains(#[trigger] walk[i]) by {
        assert(small.contains(walk[i]));
    }
}

proof fn lemma_extend_center_walk(
    gadgets: Map<u64, Gadget>,
    before: Map<u64, usize>,
    after: Map<u64, usize>,
    walk: Seq<u64>,
    center: u64,
    current: u64,
    peer: u64,
)
    requires
        walk_from_center(gadgets, before.dom(), walk, center, current, before[current] as int),
        gadgets[current].has_peer(peer),
        before[current] + hops(gadgets, peer) <= usize::MAX,
        after == before.insert(peer, (before[current] + hops(gadgets, peer)) as usize),
    ensures
        reached(gadgets, after, center, peer),
{
    let longer = walk.push(peer);
    assert forall|i: int| 0 <= i < longer.len() - 1 implies gadgets[#[trigger] longer[i]].has_peer(longer[i + 1]) by {
        if i < walk.len() - 1 {
            assert(gadgets[walk[i]].has_peer(walk[i + 1]));
        } else {
            assert(longer[i] == current);
        }
    }
    assert forall|i: int| 0 <= i < longer.len() implies after.dom().contains(#[trigger] longer[i]) by {
        if i < walk.len() {
            assert(before.dom().contains(walk[i]));
        }
    }
    crate::window_region::lemma_hops_same(gadgets, walk, longer, walk.len() as int);
    assert(longer[walk.len() as int] == peer);
    assert(longer[0] == walk[0]);
    assert(walk_from_center(gadgets, after.dom(), longer, center, peer, after[peer] as int));
}

/// Nothing found is lost or relabelled, and what is new was admitted in the given zone.
pub open spec fn grows(
    before: &ExploredWindow,
    after: &ExploredWindow,
    gadgets: Map<u64, Gadget>,
    check_models: Option<Map<u64, CheckModel>>,
    limit: int,
    phase: ExplorePhase,
) -> bool {
    &&& after.same_selection(before)
    &&& forall|gid: u64| #[trigger]
        before.dist().contains_key(gid) ==> after.dist().contains_key(gid) && after.dist()[gid] == before.dist()[gid]
            && after.phase@[gid] == before.phase@[gid]
    &&& forall|gid: u64| #[trigger]
        after.dist().contains_key(gid) && !before.dist().contains_key(gid) ==> admitted(gadgets, check_models, gid)
            && after.dist()[gid] <= limit && after.phase@[gid] == phase
}

/// What is new is not closer than `current`, and is queued if it is closer than `limit`.
pub open spec fn fresh_queued(before: &ExploredWindow, after: &ExploredWindow, current: u64, limit: int) -> bool {
    forall|gid: u64| #[trigger]
        after.dist().contains_key(gid) && !before.dist().contains_key(gid) ==> before.dist()[current] <= after.dist()[gid] && (
        after.dist()[gid] < limit ==> after.frontier@.contains(gid))
}

/// The contents of an optional table.
pub open spec fn models_view(check_models: Option<&Registry<CheckModel>>) -> Option<Map<u64, CheckModel>> {
    match check_models {
        Some(m) => Some(m@),
        None => None,
    }
}

/// Whether a gadget may be taken into the lookahead zone.
fn check_syndrome_ready(gadget: &Gadget, check_models: &Registry<CheckModel>, Ghost(gadgets): Ghost<Map<u64, Gadget>>, Ghost(gid): Ghost<u64>) -> (ready:
    bool)
    requires
        check_models.wf(),
        gadgets[gid] == *gadget,
    ensures
        ready == syndrome_ready(gadgets, check_models@, gid),
{
    if gadget.is_free_hop {
        return true;
    }
    match gadget.binding_cid {
        None => true,
        Some(cid) => match check_models.get(cid) {
            Some(cm) => cm.syndrome.is_some(),
            None => false,
        },
    }
}

/// What holds while the connections of `current` are visited.
spec fn exploring(
    window: &ExploredWindow,
    gadgets: Map<u64, Gadget>,
    check_models: Option<Map<u64, CheckModel>>,
    current: u64,
    from: int,
    limit: int,
) -> bool {
    &&& window.wf(gadgets)
    &&& window.dist().contains_key(current)
    &&& window.dist()[current] < usize::MAX
    &&& window.layered(gadgets, window.dist()[current] as int, limit)
    &&& window.expanded_but(gadgets, check_models, from, limit, Some(current))
}

/// A gadget that is in reach of `current` is found.
spec fn peer_done(
    window: &ExploredWindow,
    gadgets: Map<u64, Gadget>,
    check_models: Option<Map<u64, CheckModel>>,
    current: u64,
    limit: int,
    peer: u64,
) -> bool {
    gadgets.contains_key(peer) && admitted(gadgets, check_models, peer) && window.dist()[current] + hops(gadgets, peer)
        <= limit ==> window.dist().contains_key(peer) && window.dist()[peer] <= window.dist()[current] + hops(gadgets, peer)
}

/// How many gadgets are not found yet.
spec fn unexplored(window: &ExploredWindow, gadgets: Map<u64, Gadget>) -> int {
    gadgets.dom().len() - window.dist().dom().len()
}

proof fn lemma_unexplored(window: &ExploredWindow, gadgets: Map<u64, Gadget>)
    requires
        window.wf(gadgets),
        gadgets.dom().finite(),
    ensures
        0 <= unexplored(window, gadgets),
        window.dist().dom().finite(),
{
    assert forall|gid: u64| window.dist().dom().contains(gid) implies gadgets.dom().contains(gid) by {
        assert(window.dist().contains_key(gid));
    }
    vstd::set_lib::lemma_len_subset(window.dist().dom(), gadgets.dom());
}

impl ExploredWindow {
    /// Looks at a gadget that is connected to `current`.
    fn visit(
        &mut self,
        gadgets: &Registry<Gadget>,
        check_models: Option<&Registry<CheckModel>>,
        current: u64,
        peer: u64,
        limit: usize,
        phase: ExplorePhase,
        Ghost(from): Ghost<int>,
    )
        requires
            gadgets.wf(),
            check_models matches Some(m) ==> m.wf(),
            exploring(old(self), gadgets@, models_view(check_models), current, from, limit as int),
            gadgets@[current].has_peer(peer),
        ensures
            exploring(final(self), gadgets@, models_view(check_models), current, from, limit as int),
            grows(old(self), final(self), gadgets@, models_view(check_models), limit as int, phase),
            peer_done(final(self), gadgets@, models_view(check_models), current, limit as int, peer),
            fresh_queued(old(self), final(self), current, limit as int),
            forall|gid: u64| old(self).frontier@.contains(gid) ==> #[trigger] final(self).frontier@.contains(gid),
            forall|gid: u64| #[trigger] final(self).frontier@.contains(gid) ==> old(self).frontier@.contains(gid)
                || !old(self).dist().contains_key(gid),
            unexplored(final(self), gadgets@) <= unexplored(old(self), gadgets@),
            unexplored(final(self), gadgets@) == unexplored(old(self), gadgets@) ==> final(self).frontier@
                == old(self).frontier@,
    {
        if self.gadgets.contains(peer) {
            assert(self.dist().contains_key(peer));
            return;
        }
        let Some(gadget) = gadgets.get(peer) else {
            return;
        };
        let my: usize = self.center_distance.get(current).unwrap();
        let step: usize = if gadget.is_free_hop { 0 } else { 1 };
        let ready = match check_models {
            Some(m) => check_syndrome_ready(gadget, m, Ghost(gadgets@), Ghost(peer)),
            None => true,
        };
        if my + step <= limit && ready {
            let ghost before = *self;
            proof {
                gadgets.lemma_id_seq();
                lemma_unexplored(self, gadgets@);
            }
            self.discover(gadgets, current, peer, limit, phase);
            proof {
                assert(self.dist().dom() =~= before.dist().dom().insert(peer));
                assert forall|gid: u64| #[trigger] self.dist().contains_key(gid) && from <= self.dist()[gid] < limit && !self.frontier@.contains(gid)
                    && Some(current) != Some(gid) implies expanded(gadgets@, models_view(check_models), self.dist(), limit as int, gid) by {
                    if gid != peer {
                        assert(before.dist().contains_key(gid));
                        assert(!before.frontier@.contains(gid));
                        assert(expanded(gadgets@, models_view(check_models), before.dist(), limit as int, gid));
                        assert forall|p: u64| #[trigger] gadgets@[gid].has_peer(p) && gadgets@.contains_key(p) && admitted(gadgets@, models_view(check_models), p)
                            && self.dist()[gid] + hops(gadgets@, p) <= limit implies self.dist().contains_key(p) && self.dist()[p]
                            <= self.dist()[gid] + hops(gadgets@, p) by {
                            assert(before.dist().contains_key(p));
                        }
                    }
                }
            }
        }
    }

    /// Looks at every connection of `current`. The result lists the output ports that
    /// are not connected yet, if the zone has to wait for them. `None` if `current` does
    /// not exist, or if the zone cannot do without a peer that does not.
    ///
    /// Without `check_models` the zone is mandatory; with it, the zone takes only what is
    /// ready.
    fn expand(
        &mut self,
        gadgets: &Registry<Gadget>,
        check_models: Option<&Registry<CheckModel>>,
        current: u64,
        limit: usize,
        phase: ExplorePhase,
        Ghost(from): Ghost<int>,
    ) -> (waits: Option<Vec<Connector>>)
        requires
            gadgets.wf(),
            check_models matches Some(m) ==> m.wf(),
            exploring(old(self), gadgets@, models_view(check_models), current, from, limit as int),
        ensures
            exploring(final(self), gadgets@, models_view(check_models), current, from, limit as int),
            grows(old(self), final(self), gadgets@, models_view(check_models), limit as int, phase),
            fresh_queued(old(self), final(self), current, limit as int),
            forall|gid: u64| old(self).frontier@.contains(gid) ==> #[trigger] final(self).frontier@.contains(gid),
            forall|gid: u64| #[trigger] final(self).frontier@.contains(gid) ==> old(self).frontier@.contains(gid)
                || !old(self).dist().contains_key(gid),
            unexplored(final(self), gadgets@) <= unexplored(old(self), gadgets@),
            unexplored(final(self), gadgets@) == unexplored(old(self), gadgets@) ==> final(self).frontier@
                == old(self).frontier@,
            waits is Some ==> expanded(gadgets@, models_view(check_models), final(self).dist(), limit as int, current),
            waits is None ==> check_models is None && exists|peer: u64| #[trigger]
                gadgets@[current].has_peer(peer) && !gadgets@.contains_key(peer),
            waits matches Some(ports) ==> {
                &&& check_models is None && ports@.len() == 0 && old(self).dist()[current] < limit ==> connected(
                    gadgets@,
                    current,
                )
                &&& check_models is Some || old(self).dist()[current] >= limit ==> ports@.len() == 0
                &&& forall|k: int| 0 <= k < ports@.len() ==> is_open_port(gadgets@, current, #[trigger] ports@[k])
            },
    {
        assert(self.dist().contains_key(current));
        let gadget = gadgets.get(current).unwrap();
        let my: usize = self.center_distance.get(current).unwrap();
        let mut ports: Vec<Connector> = Vec::new();
        let mut i: usize = 0;
        while i < gadget.instance.connectors.len()
            invariant
                gadgets.wf(),
                check_models matches Some(m) ==> m.wf(),
                *gadget == gadgets@[current],
                i <= gadget.instance.connectors@.len(),
                exploring(self, gadgets@, models_view(check_models), current, from, limit as int),
                grows(old(self), self, gadgets@, models_view(check_models), limit as int, phase),
                fresh_queued(old(self), self, current, limit as int),
                forall|gid: u64| old(self).frontier@.contains(gid) ==> #[trigger] self.frontier@.contains(gid),
                forall|gid: u64| #[trigger] self.frontier@.contains(gid) ==> old(self).frontier@.contains(gid)
                    || !old(self).dist().contains_key(gid),
                unexplored(self, gadgets@) <= unexplored(old(self), gadgets@),
                unexplored(self, gadgets@) == unexplored(old(self), gadgets@) ==> self.frontier@ == old(self).frontier@,
                old(self).dist().contains_key(current),
                forall|k: int|
                    0 <= k < i ==> peer_done(
                        self,
                        gadgets@,
                        models_view(check_models),
                        current,
                        limit as int,
                        (#[trigger] gadget.instance.connectors@[k]).gid,
                    ),
                check_models is None ==> forall|k: int|
                    0 <= k < i ==> gadgets@.contains_key((#[trigger] gadget.instance.connectors@[k]).gid),
            decreases gadget.instance.connectors@.len() - i,
        {
            let peer: u64 = gadget.instance.connectors[i].gid;
            assert(gadgets@[current].has_peer(peer)) by {
                assert(gadget.instance.connectors@[i as int].gid == peer);
            }
            if check_models.is_none() && !gadgets.contains_key(peer) {
                return None;
            }
            let ghost before = *self;
            self.visit(gadgets, check_models, current, peer, limit, phase, Ghost(from));
            proof {
                lemma_grows_transitive(old(self), &before, self, gadgets@, models_view(check_models), limit as int, phase);
                lemma_fresh_transitive(old(self), &before, self, current, limit as int);
                assert forall|k: int| 0 <= k < i + 1 implies peer_done(
                    self,
                    gadgets@,
                    models_view(check_models),
                    current,
                    limit as int,
                    (#[trigger] gadget.instance.connectors@[k]).gid,
                ) by {
                    if k < i {
                        assert(peer_done(&before, gadgets@, models_view(check_models), current, limit as int, gadget.instance.connectors@[k].gid));
                    }
                }
            }
            i += 1;
        }
        let mut i: usize = 0;
        while i < gadget.outputs.len()
            invariant
                gadgets.wf(),
                check_models matches Some(m) ==> m.wf(),
                *gadget == gadgets@[current],
                my == old(self).dist()[current],
                i <= gadget.outputs@.len(),
                exploring(self, gadgets@, models_view(check_models), current, from, limit as int),
                grows(old(self), self, gadgets@, models_view(check_models), limit as int, phase),
                fresh_queued(old(self), self, current, limit as int),
                forall|gid: u64| old(self).frontier@.contains(gid) ==> #[trigger] self.frontier@.contains(gid),
                forall|gid: u64| #[trigger] self.frontier@.contains(gid) ==> old(self).frontier@.contains(gid)
                    || !old(self).dist().contains_key(gid),
                unexplored(self, gadgets@) <= unexplored(old(self), gadgets@),
                unexplored(self, gadgets@) == unexplored(old(self), gadgets@) ==> self.frontier@ == old(self).frontier@,
                old(self).dist().contains_key(current),
                forall|k: int|
                    0 <= k < gadget.instance.connectors@.len() ==> peer_done(
                        self,
                        gadgets@,
                        models_view(check_models),
                        current,
                        limit as int,
                        (#[trigger] gadget.instance.connectors@[k]).gid,
                    ),
                check_models is None ==> forall|k: int|
                    0 <= k < gadget.instance.connectors@.len() ==> gadgets@.contains_key(
                        (#[trigger] gadget.instance.connectors@[k]).gid,
                    ),
                forall|k: int|
                    0 <= k < i && (#[trigger] gadget.outputs@[k]) is Some ==> peer_done(
                        self,
                        gadgets@,
                        models_view(check_models),
                        current,
                        limit as int,
                        gadget.outputs@[k]->0.gid,
                    ),
                check_models is None ==> forall|k: int|
                    0 <= k < i && (#[trigger] gadget.outputs@[k]) is Some ==> gadgets@.contains_key(gadget.outputs@[k]->0.gid),
                check_models is Some || my >= limit ==> ports@.len() == 0,
                check_models is None && my < limit && ports@.len() == 0 ==> forall|k: int|
                    0 <= k < i ==> (#[trigger] gadget.outputs@[k]) is Some,
                forall|k: int| 0 <= k < ports@.len() ==> is_open_port(gadgets@, current, #[trigger] ports@[k]),
            decreases gadget.outputs@.len() - i,
        {
            match gadget.outputs[i] {
                Some(c) => {
                    let peer: u64 = c.gid;
                    assert(gadgets@[current].has_peer(peer)) by {
                        assert(gadget.outputs@[i as int] is Some);
                    }
                    if check_models.is_none() && !gadgets.contains_key(peer) {
                        return None;
                    }
                    let ghost before = *self;
                    self.visit(gadgets, check_models, current, peer, limit, phase, Ghost(from));
                    proof {
                        lemma_grows_transitive(old(self), &before, self, gadgets@, models_view(check_models), limit as int, phase);
                lemma_fresh_transitive(old(self), &before, self, current, limit as int);
                        assert forall|k: int| 0 <= k < gadget.instance.connectors@.len() implies peer_done(
                            self,
                            gadgets@,
                            models_view(check_models),
                            current,
                            limit as int,
                            (#[trigger] gadget.instance.connectors@[k]).gid,
                        ) by {
                            assert(peer_done(&before, gadgets@, models_view(check_models), current, limit as int, gadget.instance.connectors@[k].gid));
                        }
                        assert forall|k: int| 0 <= k < i + 1 && (#[trigger] gadget.outputs@[k]) is Some implies peer_done(
                            self,
                            gadgets@,
                            models_view(check_models),
                            current,
                            limit as int,
                            gadget.outputs@[k]->0.gid,
                        ) by {
                            if k < i {
                                assert(peer_done(&before, gadgets@, models_view(check_models), current, limit as int, gadget.outputs@[k]->0.gid));
                            }
                        }
                    }
                },
                None => {
                    if check_models.is_none() && my < limit {
                        ports.push(Connector { gid: current, port: i as u64 });
                    }
                },
            }
            i += 1;
        }
        proof {
            assert forall|peer: u64| #[trigger] gadgets@[current].has_peer(peer) implies peer_done(
                self,
                gadgets@,
                models_view(check_models),
                current,
                limit as int,
                peer,
            ) && (check_models is None ==> gadgets@.contains_key(peer)) by {
                if exists|k: int| 0 <= k < gadget.instance.connectors@.len() && (#[trigger] gadget.instance.connectors@[k]).gid == peer {
                    let k = choose|k: int| 0 <= k < gadget.instance.connectors@.len() && (#[trigger] gadget.instance.connectors@[k]).gid == peer;
                    assert(peer_done(self, gadgets@, models_view(check_models), current, limit as int, gadget.instance.connectors@[k].gid));
                } else {
                    let k = choose|k: int| 0 <= k < gadget.outputs@.len() && (#[trigger] gadget.outputs@[k]) is Some && gadget.outputs@[k]->0.gid == peer;
                    assert(peer_done(self, gadgets@, models_view(check_models), current, limit as int, gadget.outputs@[k]->0.gid));
                }
            }
        }
        Some(ports)
    }
}

/// An output port of `gid` that is not connected.
pub open spec fn is_open_port(gadgets: Map<u64, Gadget>, gid: u64, port: Connector) -> bool {
    &&& port.gid == gid
    &&& port.port < gadgets[gid].outputs@.len()
    &&& gadgets[gid].outputs@[port.port as int] is None
}

proof fn lemma_grows_transitive(
    a: &ExploredWindow,
    b: &ExploredWindow,
    c: &ExploredWindow,
    gadgets: Map<u64, Gadget>,
    check_models: Option<Map<u64, CheckModel>>,
    limit: int,
    phase: ExplorePhase,
)
    requires
        grows(a, b, gadgets, check_models, limit, phase),
        grows(b, c, gadgets, check_models, limit, phase),
    ensures
        grows(a, c, gadgets, check_models, limit, phase),
{
    assert forall|gid: u64| #[trigger] a.dist().contains_key(gid) implies c.dist().contains_key(gid) && c.dist()[gid] == a.dist()[gid]
        && c.phase@[gid] == a.phase@[gid] by {
        assert(b.dist().contains_key(gid));
    }
    assert forall|gid: u64| #[trigger] c.dist().contains_key(gid) && !a.dist().contains_key(gid) implies admitted(gadgets, check_models, gid)
        && c.dist()[gid] <= limit && c.phase@[gid] == phase by {
        if b.dist().contains_key(gid) {
            assert(b.dist()[gid] <= limit);
        }
    }
}

/// How far the exploration of a mandatory zone got.
#[derive(Debug)]
pub enum MandatoryStep {
    /// the zone is complete
    Done,
    /// the listed output ports of `current` have to be connected first
    Wait { current: u64, ports: Vec<Connector> },
    /// a gadget of the zone is gone
    Lost,
}

/// An output port is connected.
pub open spec fn port_connected(gadgets: Map<u64, Gadget>, port: Connector) -> bool {
    &&& gadgets.contains_key(port.gid)
    &&& port.port < gadgets[port.gid].outputs@.len()
    &&& gadgets[port.gid].outputs@[port.port as int] is Some
}

/// Whether all the listed output ports are connected.
pub fn ports_connected(gadgets: &Registry<Gadget>, ports: &Vec<Connector>) -> (yes: bool)
    requires
        gadgets.wf(),
    ensures
        yes == forall|i: int| 0 <= i < ports@.len() ==> port_connected(gadgets@, #[trigger] ports@[i]),
{
    let mut i: usize = 0;
    while i < ports.len()
        invariant
            i <= ports@.len(),
            gadgets.wf(),
            forall|k: int| 0 <= k < i ==> port_connected(gadgets@, #[trigger] ports@[k]),
        decreases ports@.len() - i,
    {
        let port: Connector = ports[i];
        let connected = match gadgets.get(port.gid) {
            Some(gadget) => port.port < gadget.outputs.len() as u64 && gadget.outputs[port.port as usize].is_some(),
            None => false,
        };
        if !connected {
            assert(!port_connected(gadgets@, ports@[i as int]));
            return false;
        }
        i += 1;
    }
    true
}

/// What holds of a mandatory zone that is explored up to its frontier and `current`.
pub open spec fn zone_in_progress(window: &ExploredWindow, gadgets: Map<u64, Gadget>, radius: int, current: u64) -> bool {
    &&& window.wf(gadgets)
    &&& window.dist().contains_key(current)
    &&& window.dist()[current] < usize::MAX
    &&& radius == 0 ==> current == window.center_gid
    &&& window.layered(gadgets, window.dist()[current] as int, radius)
    &&& window.expanded_but(gadgets, None, 0, radius, Some(current))
    &&& window.closed_but(gadgets, radius, Some(current))
    &&& forall|gid: u64| #[trigger] window.dist().contains_key(gid) ==> window.dist()[gid] <= radius && window.phase@[gid]
        == ExplorePhase::MandatoryZone
}

/// Everything closer to the center than `radius` has all its connections made, and
/// they lead to gadgets of the window.
pub open spec fn encloses(window: &ExploredWindow, gadgets: Map<u64, Gadget>, radius: int) -> bool {
    forall|gid: u64| #[trigger]
        window.dist().contains_key(gid) && window.dist()[gid] < radius ==> connected(gadgets, gid) && expanded(
            gadgets,
            None,
            window.dist(),
            radius,
            gid,
        )
}

/// A network grew: gadgets and connections were added, none changed.
pub open spec fn network_grew(later: Map<u64, Gadget>, earlier: Map<u64, Gadget>) -> bool {
    &&& crate::remote::extends(later, earlier)
    &&& forall|gid: u64| #[trigger] earlier.contains_key(gid) ==> later[gid].is_free_hop == earlier[gid].is_free_hop
}

impl ExploredWindow {
    /// Explores the mandatory zone of `center`, as far as it is connected.
    pub fn explore_mandatory_zone(center: u64, gadgets: &Registry<Gadget>, buffer_radius: usize) -> (explored: (
        ExploredWindow,
        MandatoryStep,
    ))
        requires
            gadgets.wf(),
            gadgets@.contains_key(center),
        ensures
            explored.0.center_gid == center,
            explored.0.commit_region@ == Set::<u64>::empty(),
            explored.0.committing_cids@ == Set::<u64>::empty(),
            explored.0.decoder_window@ == Set::<u64>::empty(),
            zone_step(&explored.0, gadgets@, buffer_radius as int, &explored.1),
    {
        let mut window = ExploredWindow::start(center, gadgets);
        let ghost before = window;
        window.frontier = VecDeque::new();
        proof {
            assert(window.dist()[center] == 0);
            assert(window.layered(gadgets@, 0, buffer_radius as int));
            assert forall|gid: u64| #[trigger] window.dist().contains_key(gid) implies window.dist()[gid] <= buffer_radius && window.phase@[gid]
                == ExplorePhase::MandatoryZone by {
                assert(gid == center);
            }
            assert(zone_in_progress(&window, gadgets@, buffer_radius as int, center));
        }
        let step = window.continue_mandatory_zone(gadgets, center, buffer_radius);
        (window, step)
    }

    /// Goes on exploring a mandatory zone from `current`, once the ports that it waited
    /// for are connected.
    pub fn continue_mandatory_zone(&mut self, gadgets: &Registry<Gadget>, current: u64, buffer_radius: usize) -> (step:
        MandatoryStep)
        requires
            gadgets.wf(),
            zone_in_progress(old(self), gadgets@, buffer_radius as int, current),
        ensures
            final(self).same_selection(old(self)),
            zone_step(final(self), gadgets@, buffer_radius as int, &step),
    {
        let mut current: u64 = current;
        let ghost r = buffer_radius as int;
        proof {
            gadgets.lemma_id_seq();
        }
        loop
            invariant
                gadgets.wf(),
                gadgets@.dom().finite(),
                r == buffer_radius,
                zone_in_progress(self, gadgets@, r, current),
                self.same_selection(old(self)),
            decreases unexplored(self, gadgets@), self.frontier@.len(),
        {
            let ghost before = *self;
            proof {
                lemma_unexplored(self, gadgets@);
            }
            let waits = self.expand(gadgets, None, current, buffer_radius, ExplorePhase::MandatoryZone, Ghost(0));
            proof {
                lemma_unexplored(self, gadgets@);
                assert forall|gid: u64| #[trigger] self.dist().contains_key(gid) implies self.dist()[gid] <= r && self.phase@[gid]
                    == ExplorePhase::MandatoryZone by {
                    if before.dist().contains_key(gid) {
                        assert(self.dist()[gid] == before.dist()[gid]);
                    }
                }
                assert forall|gid: u64| #[trigger] self.dist().contains_key(gid) && self.dist()[gid] < r && !self.frontier@.contains(gid)
                    && Some(current) != Some(gid) implies connected(gadgets@, gid) by {
                    if before.dist().contains_key(gid) {
                        assert(!before.frontier@.contains(gid));
                    } else {
                        assert(self.frontier@.contains(gid));
                    }
                }
            }
            let Some(ports) = waits else {
                return MandatoryStep::Lost;
            };
            if ports.len() > 0 {
                return MandatoryStep::Wait { current, ports };
            }
            let ghost expanded_window = *self;
            match self.frontier.pop_front() {
                Some(next) => {
                    proof {
                        lemma_pop_front(expanded_window.frontier@, self.frontier@, next);
                        lemma_pop_keeps(&expanded_window, self, gadgets@, None, current, next, 0, r);
                        assert forall|gid: u64| #[trigger] self.dist().contains_key(gid) && self.dist()[gid] < r && !self.frontier@.contains(gid)
                            && Some(next) != Some(gid) implies connected(gadgets@, gid) by {
                            assert(!expanded_window.frontier@.contains(gid));
                        }
                    }
                    current = next;
                },
                None => {
                    proof {
                        assert(self.frontier@ =~= Seq::<u64>::empty());
                        assert(encloses(self, gadgets@, r)) by {
                            assert forall|gid: u64| #[trigger] self.dist().contains_key(gid) && self.dist()[gid] < r implies connected(gadgets@, gid)
                                && expanded(gadgets@, None, self.dist(), r, gid) by {
                                assert(!self.frontier@.contains(gid));
                            }
                        }
                        assert(expanded(gadgets@, None, self.dist(), r, self.center_gid)) by {
                            assert(self.dist().contains_key(self.center_gid));
                        }
                    }
                    self.rebuild_frontier(gadgets, buffer_radius);
                    return MandatoryStep::Done;
                },
            }
        }
    }

    /// Puts every gadget at the edge of the mandatory zone into the frontier.
    fn rebuild_frontier(&mut self, gadgets: &Registry<Gadget>, buffer_radius: usize)
        requires
            gadgets.wf(),
            old(self).wf(gadgets@),
        ensures
            final(self).wf(gadgets@),
            final(self).same_selection(old(self)),
            final(self).dist() == old(self).dist(),
            final(self).phase@ == old(self).phase@,
            forall|gid: u64| #[trigger]
                final(self).frontier@.contains(gid) <==> final(self).dist().contains_key(gid) && final(self).dist()[gid]
                    == buffer_radius,
    {
        let ids = self.gadgets.items();
        let mut frontier: VecDeque<u64> = VecDeque::new();
        let mut i: usize = 0;
        while i < ids.len()
            invariant
                i <= ids@.len(),
                ids@.to_set() == self.dist().dom(),
                *self == *old(self),
                forall|gid: u64| #[trigger] frontier@.contains(gid) ==> self.dist().contains_key(gid) && self.dist()[gid] == buffer_radius,
                forall|k: int| 0 <= k < i && self.dist()[#[trigger] ids@[k]] == buffer_radius ==> frontier@.contains(ids@[k]),
            decreases ids@.len() - i,
        {
            let gid: u64 = ids[i];
            assert(ids@.to_set().contains(gid));
            let d: usize = self.center_distance.get(gid).unwrap();
            let ghost before = frontier@;
            if d == buffer_radius {
                frontier.push_back(gid);
                proof {
                    lemma_push_back(before, frontier@, gid);
                }
            }
            i += 1;
        }
        proof {
            assert forall|gid: u64| self.dist().contains_key(gid) && self.dist()[gid] == buffer_radius implies #[trigger] frontier@.contains(gid) by {
                assert(ids@.to_set().contains(gid));
                let k = choose|k: int| 0 <= k < ids@.len() && ids@[k] == gid;
                assert(frontier@.contains(ids@[k]));
            }
        }
        self.frontier = frontier;
    }

    /// Explores the lookahead zone of a window with a complete mandatory zone: up to
    /// `lookahead_radius` hops more, without waiting, and only gadgets that are ready.
    pub fn explore_lookahead_zone(
        &mut self,
        gadgets: &Registry<Gadget>,
        check_models: &Registry<CheckModel>,
        buffer_radius: usize,
        lookahead_radius: usize,
    )
        requires
            gadgets.wf(),
            check_models.wf(),
            buffer_radius + lookahead_radius < usize::MAX,
            zone_complete(old(self), gadgets@, buffer_radius as int),
        ensures
            final(self).wf(gadgets@),
            encloses(final(self), gadgets@, buffer_radius as int),
            lookahead_radius == 0 ==> *final(self) == *old(self),
            grows(
                old(self),
                final(self),
                gadgets@,
                Some(check_models@),
                buffer_radius + lookahead_radius,
                ExplorePhase::LookaheadZone,
            ),
            forall|gid: u64| #[trigger]
                final(self).dist().contains_key(gid) && !old(self).dist().contains_key(gid) ==> final(self).dist()[gid]
                    >= buffer_radius,
            lookahead_radius > 0 ==> forall|gid: u64| #[trigger]
                final(self).dist().contains_key(gid) && buffer_radius <= final(self).dist()[gid] < buffer_radius
                    + lookahead_radius ==> expanded(
                    gadgets@,
                    Some(check_models@),
                    final(self).dist(),
                    buffer_radius + lookahead_radius,
                    gid,
                ),
    {
        if lookahead_radius == 0 {
            return;
        }
        let window_radius: usize = buffer_radius + lookahead_radius;
        let ghost r = buffer_radius as int;
        let ghost w = window_radius as int;
        let ghost cm = Some(check_models@);
        let ghost mut level: int = r;
        proof {
            gadgets.lemma_id_seq();
            assert(self.layered(gadgets@, r, w)) by {
                assert forall|i: int| 0 <= i < self.frontier@.len() implies self.dist().contains_key(#[trigger] self.frontier@[i])
                    && self.dist()[self.frontier@[i]] == r by {
                    assert(self.frontier@.contains(self.frontier@[i]));
                }
            }
        }
        while self.frontier.len() > 0
            invariant
                gadgets.wf(),
                check_models.wf(),
                gadgets@.dom().finite(),
                r == buffer_radius,
                w == window_radius,
                w == r + lookahead_radius,
                w < usize::MAX,
                cm == Some(check_models@),
                self.wf(gadgets@),
                encloses(self, gadgets@, r),
                r <= level,
                self.layered(gadgets@, level, w),
                self.expanded_but(gadgets@, cm, r, w, None),
                grows(old(self), self, gadgets@, cm, w, ExplorePhase::LookaheadZone),
                forall|gid: u64| #[trigger] self.dist().contains_key(gid) && !old(self).dist().contains_key(gid) ==> self.dist()[gid] >= r,
            decreases unexplored(self, gadgets@), self.frontier@.len(),
        {
            let ghost start = *self;
            proof {
                lemma_unexplored(self, gadgets@);
            }
            let current: u64 = self.frontier.pop_front().unwrap();
            proof {
                lemma_pop_front(start.frontier@, self.frontier@, current);
                lemma_pop_layers(&start, self, gadgets@, current, level, w);
                level = self.dist()[current] as int;
                assert(self.expanded_but(gadgets@, cm, r, w, Some(current))) by {
                    assert forall|gid: u64| #[trigger] self.dist().contains_key(gid) && r <= self.dist()[gid] < w && !self.frontier@.contains(gid)
                        && Some(current) != Some(gid) implies expanded(gadgets@, cm, self.dist(), w, gid) by {
                        assert(!start.frontier@.contains(gid));
                    }
                }
            }
            let ghost popped = *self;
            let waits = self.expand(
                gadgets,
                Some(check_models),
                current,
                window_radius,
                ExplorePhase::LookaheadZone,
                Ghost(r),
            );
            proof {
                lemma_grows_transitive(old(self), &popped, self, gadgets@, cm, w, ExplorePhase::LookaheadZone);
                lemma_unexplored(self, gadgets@);
                lemma_encloses_kept(&popped, self, gadgets@, r);
                assert forall|gid: u64| #[trigger] self.dist().contains_key(gid) && !old(self).dist().contains_key(gid) implies self.dist()[gid] >= r by {
                    if popped.dist().contains_key(gid) {
                        assert(self.dist()[gid] == popped.dist()[gid]);
                    }
                }
                assert(self.expanded_but(gadgets@, cm, r, w, None)) by {
                    assert forall|gid: u64| #[trigger] self.dist().contains_key(gid) && r <= self.dist()[gid] < w && !self.frontier@.contains(gid)
                        implies expanded(gadgets@, cm, self.dist(), w, gid) by {
                        assert(gid == current || Some(current) != Some(gid));
                    }
                }
            }
        }
        proof {
            assert forall|gid: u64| #[trigger] self.dist().contains_key(gid) && r <= self.dist()[gid] < w implies expanded(
                gadgets@,
                cm,
                self.dist(),
                w,
                gid,
            ) by {
                assert(!self.frontier@.contains(gid));
            }
        }
    }
}

/// What holds of a complete mandatory zone: everything closer than the radius is
/// enclosed, and what is in reach of the center is found, also where the radius is 0.
pub open spec fn zone_complete(window: &ExploredWindow, gadgets: Map<u64, Gadget>, radius: int) -> bool {
    &&& window.wf(gadgets)
    &&& encloses(window, gadgets, radius)
    &&& expanded(gadgets, None, window.dist(), radius, window.center_gid)
    &&& forall|gid: u64| #[trigger] window.dist().contains_key(gid) ==> window.dist()[gid] <= radius && window.phase@[gid]
        == ExplorePhase::MandatoryZone
    &&& forall|gid: u64| #[trigger]
        window.frontier@.contains(gid) <==> window.dist().contains_key(gid) && window.dist()[gid] == radius
}

/// What holds after a step of the exploration of a mandatory zone.
pub open spec fn zone_step(window: &ExploredWindow, gadgets: Map<u64, Gadget>, radius: int, step: &MandatoryStep) -> bool {
    match step {
        MandatoryStep::Done => zone_complete(window, gadgets, radius),
        MandatoryStep::Wait { current, ports } => {
            &&& zone_in_progress(window, gadgets, radius, *current)
            &&& window.dist()[*current] < radius
            &&& ports@.len() > 0
            &&& forall|k: int| 0 <= k < ports@.len() ==> is_open_port(gadgets, *current, #[trigger] ports@[k])
        },
        MandatoryStep::Lost => exists|gid: u64, peer: u64|
            window.dist().contains_key(gid) && #[trigger] gadgets[gid].has_peer(peer) && !gadgets.contains_key(peer),
    }
}

proof fn lemma_pop_layers(
    before: &ExploredWindow,
    after: &ExploredWindow,
    gadgets: Map<u64, Gadget>,
    next: u64,
    level: int,
    limit: int,
)
    requires
        before.layered(gadgets, level, limit),
        before.frontier@.len() > 0,
        next == before.frontier@[0],
        after.frontier@ == before.frontier@.subrange(1, before.frontier@.len() as int),
        after.dist() == before.dist(),
    ensures
        after.layered(gadgets, after.dist()[next] as int, limit),
        level <= after.dist()[next] <= level + 1,
        after.dist()[next] < limit,
        after.dist().contains_key(next),
{
    assert(before.dist().contains_key(before.frontier@[0]));
    assert forall|i: int| 0 <= i < after.frontier@.len() implies after.dist().contains_key(#[trigger] after.frontier@[i])
        && after.dist()[next] <= after.dist()[after.frontier@[i]] <= after.dist()[next] + 1 && after.dist()[after.frontier@[i]] < limit by {
        assert(after.frontier@[i] == before.frontier@[i + 1]);
        assert(before.dist().contains_key(before.frontier@[i + 1]));
        assert(before.dist()[before.frontier@[0]] <= before.dist()[before.frontier@[i + 1]]);
    }
    assert forall|i: int, j: int| 0 <= i < j < after.frontier@.len() implies after.dist()[after.frontier@[i]] <= after.dist()[after.frontier@[j]] by {
        assert(before.dist()[before.frontier@[i + 1]] <= before.dist()[before.frontier@[j + 1]]);
    }
}

proof fn lemma_pop_keeps(
    before: &ExploredWindow,
    after: &ExploredWindow,
    gadgets: Map<u64, Gadget>,
    check_models: Option<Map<u64, CheckModel>>,
    current: u64,
    next: u64,
    from: int,
    limit: int,
)
    requires
        exploring(before, gadgets, check_models, current, from, limit),
        expanded(gadgets, check_models, before.dist(), limit, current),
        before.frontier@.len() > 0,
        next == before.frontier@[0],
        after.frontier@ == before.frontier@.subrange(1, before.frontier@.len() as int),
        after.dist() == before.dist(),
        after.gadgets == before.gadgets,
        after.phase == before.phase,
        after.center_gid == before.center_gid,
        limit <= usize::MAX,
    ensures
        exploring(after, gadgets, check_models, next, from, limit),
{
    lemma_pop_layers(before, after, gadgets, next, before.dist()[current] as int, limit);
    lemma_pop_front(before.frontier@, after.frontier@, next);
    assert forall|gid: u64| #[trigger] after.dist().contains_key(gid) && from <= after.dist()[gid] < limit && !after.frontier@.contains(gid)
        && Some(next) != Some(gid) implies expanded(gadgets, check_models, after.dist(), limit, gid) by {
        assert(!before.frontier@.contains(gid));
        if gid != current {
            assert(before.dist().contains_key(gid));
        }
    }
}

proof fn lemma_fresh_transitive(a: &ExploredWindow, b: &ExploredWindow, c: &ExploredWindow, current: u64, limit: int)
    requires
        fresh_queued(a, b, current, limit),
        fresh_queued(b, c, current, limit),
        a.dist().contains_key(current),
        forall|gid: u64| #[trigger] a.dist().contains_key(gid) ==> b.dist().contains_key(gid) && b.dist()[gid] == a.dist()[gid],
        forall|gid: u64| #[trigger] b.dist().contains_key(gid) ==> c.dist().contains_key(gid) && c.dist()[gid] == b.dist()[gid],
        forall|gid: u64| b.frontier@.contains(gid) ==> #[trigger] c.frontier@.contains(gid),
    ensures
        fresh_queued(a, c, current, limit),
{
    assert forall|gid: u64| #[trigger] c.dist().contains_key(gid) && !a.dist().contains_key(gid) implies a.dist()[current] <= c.dist()[gid]
        && (c.dist()[gid] < limit ==> c.frontier@.contains(gid)) by {
        if b.dist().contains_key(gid) {
            assert(b.dist()[gid] == c.dist()[gid]);
        }
    }
}

/// A zone stays enclosed while farther gadgets are found.
proof fn lemma_encloses_kept(before: &ExploredWindow, after: &ExploredWindow, gadgets: Map<u64, Gadget>, radius: int)
    requires
        encloses(before, gadgets, radius),
        forall|gid: u64| #[trigger]
            before.dist().contains_key(gid) ==> after.dist().contains_key(gid) && after.dist()[gid] == before.dist()[gid],
        forall|gid: u64| #[trigger]
            after.dist().contains_key(gid) && !before.dist().contains_key(gid) ==> after.dist()[gid] >= radius,
    ensures
        encloses(after, gadgets, radius),
{
    assert forall|gid: u64| #[trigger] after.dist().contains_key(gid) && after.dist()[gid] < radius implies connected(gadgets, gid)
        && expanded(gadgets, None, after.dist(), radius, gid) by {
        assert(before.dist().contains_key(gid));
        assert forall|p: u64| #[trigger] gadgets[gid].has_peer(p) && gadgets.contains_key(p) && admitted(gadgets, None, p)
            && after.dist()[gid] + hops(gadgets, p) <= radius implies after.dist().contains_key(p) && after.dist()[p] <= after.dist()[gid]
            + hops(gadgets, p) by {
            assert(before.dist().contains_key(p));
        }
    }
}

impl ExploredWindow {
    /// Selects the commit region of the window, and its check models.
    pub fn select_commit_region(&mut self, gadgets: &Registry<Gadget>, buffer_radius: usize)
        requires
            gadgets.wf(),
            old(self).wf(gadgets@),
        ensures
            final(self).wf(gadgets@),
            final(self).center_gid == old(self).center_gid,
            final(self).gadgets == old(self).gadgets,
            final(self).center_distance == old(self).center_distance,
            final(self).phase == old(self).phase,
            final(self).frontier == old(self).frontier,
            final(self).decoder_window == old(self).decoder_window,
            forall|gid: u64| #[trigger]
                final(self).commit_region@.contains(gid) <==> in_commit_region(
                    gadgets@,
                    old(self).gadgets@,
                    old(self).center_gid,
                    buffer_radius as int,
                    gid,
                ),
            forall|cid: u64| #[trigger]
                final(self).committing_cids@.contains(cid) <==> region_cids(gadgets@, final(self).commit_region@, cid),
            final(self).commit_region@.subset_of(old(self).gadgets@),
    {
        proof {
            assert forall|gid: u64| #[trigger] self.gadgets@.contains(gid) implies gadgets@.contains_key(gid) by {
                assert(self.dist().contains_key(gid));
            }
            assert(self.gadgets@.contains(self.center_gid));
        }
        self.commit_region = commit_region_of(self.center_gid, &self.gadgets, gadgets, buffer_radius);
        proof {
            assert forall|gid: u64| #[trigger] self.commit_region@.contains(gid) implies self.gadgets@.contains(gid) && gadgets@.contains_key(gid) by {
                law_commit_region_inside_window(gadgets@, self.gadgets@, self.center_gid, buffer_radius as int, gid);
            }
        }
        self.committing_cids = committing_cids_of(&self.commit_region, gadgets);
    }

    /// Trims the window to what the decoder needs.
    pub fn shrink_window(&mut self, gadgets: &Registry<Gadget>, buffer_radius: usize)
        requires
            gadgets.wf(),
            buffer_radius < usize::MAX,
            old(self).wf(gadgets@),
            old(self).commit_region@.subset_of(old(self).gadgets@),
        ensures
            final(self).wf(gadgets@),
            final(self).center_gid == old(self).center_gid,
            final(self).gadgets == old(self).gadgets,
            final(self).center_distance == old(self).center_distance,
            final(self).phase == old(self).phase,
            final(self).frontier == old(self).frontier,
            final(self).commit_region == old(self).commit_region,
            final(self).committing_cids == old(self).committing_cids,
            forall|gid: u64| #[trigger]
                final(self).decoder_window@.contains(gid) <==> in_decoder_window(
                    gadgets@,
                    old(self).gadgets@,
                    old(self).commit_region@,
                    buffer_radius as int,
                    gid,
                ),
            final(self).commit_region@.subset_of(final(self).decoder_window@),
            final(self).decoder_window@.subset_of(final(self).gadgets@),
    {
        proof {
            assert forall|gid: u64| #[trigger] self.gadgets@.contains(gid) implies gadgets@.contains_key(gid) by {
                assert(self.dist().contains_key(gid));
            }
        }
        self.decoder_window = decoder_window_of(&self.gadgets, &self.commit_region, gadgets, buffer_radius);
        proof {
            assert forall|gid: u64| self.commit_region@.contains(gid) implies #[trigger] self.decoder_window@.contains(gid) by {
                crate::window_region::law_decoder_window_bounds(
                    gadgets@,
                    self.gadgets@,
                    self.commit_region@,
                    buffer_radius as int,
                    gid,
                );
            }
            assert forall|gid: u64| #[trigger] self.decoder_window@.contains(gid) implies self.gadgets@.contains(gid) by {
                crate::window_region::law_decoder_window_bounds(
                    gadgets@,
                    self.gadgets@,
                    self.commit_region@,
                    buffer_radius as int,
                    gid,
                );
            }
        }
    }
}

// ---------------------------------------------------------------------------
// Laws of exploration
// ---------------------------------------------------------------------------

proof fn lemma_labels_bound_walks(
    window: &ExploredWindow,
    gadgets: Map<u64, Gadget>,
    radius: int,
    walk: Seq<u64>,
    n: int,
)
    requires
        window.wf(gadgets),
        encloses(window, gadgets, radius),
        is_walk(gadgets, window.gadgets@, walk),
        walk[0] == window.center_gid,
        0 <= n < walk.len(),
        hops_upto(gadgets, walk, n + 1) - hops(gadgets, window.center_gid) < radius,
    ensures
        window.dist().contains_key(walk[n]),
        window.dist()[walk[n]] <= hops_upto(gadgets, walk, n + 1) - hops(gadgets, window.center_gid),
    decreases n,
{
    if n > 0 {
        lemma_labels_bound_walks(window, gadgets, radius, walk, n - 1);
        let from = walk[n - 1];
        assert(gadgets[walk[n - 1]].has_peer(walk[n - 1 + 1]));
        assert(window.gadgets@.contains(walk[n]));
        assert(window.dist().contains_key(walk[n]));
        assert(expanded(gadgets, None, window.dist(), radius, from));
    } else {
        assert(hops_upto(gadgets, walk, 1) == hops_upto(gadgets, walk, 0) + hops(gadgets, walk[0]));
    }
}

/// Exploration finds shortest ways: inside the enclosed zone no walk from the center
/// is shorter than the recorded distance.
pub proof fn law_distance_is_shortest(
    window: &ExploredWindow,
    gadgets: Map<u64, Gadget>,
    radius: int,
    walk: Seq<u64>,
    gid: u64,
    d: int,
)
    requires
        window.wf(gadgets),
        encloses(window, gadgets, radius),
        walk_from_center(gadgets, window.gadgets@, walk, window.center_gid, gid, d),
        d < radius,
    ensures
        window.dist()[gid] <= d,
{
    lemma_labels_bound_walks(window, gadgets, radius, walk, walk.len() - 1);
}

/// Nothing closer to the center than the buffer lies on the boundary of an explored
/// window.
pub proof fn law_mandatory_zone_encloses_center(
    window: &ExploredWindow,
    gadgets: Map<u64, Gadget>,
    radius: int,
    walk: Seq<u64>,
    gid: u64,
)
    requires
        window.wf(gadgets),
        encloses(window, gadgets, radius),
        walk_from_center(gadgets, window.gadgets@, walk, window.center_gid, gid, radius - 1),
    ensures
        !on_boundary(gadgets, window.gadgets@, gid),
{
    lemma_labels_bound_walks(window, gadgets, radius, walk, walk.len() - 1);
    assert(window.dist().contains_key(gid));
    assert(connected(gadgets, gid));
    assert(expanded(gadgets, None, window.dist(), radius, gid));
    assert forall|i: int| 0 <= i < gadgets[gid].instance.connectors@.len() implies window.gadgets@.contains(
        (#[trigger] gadgets[gid].instance.connectors@[i]).gid,
    ) by {
        assert(gadgets[gid].has_peer(gadgets[gid].instance.connectors@[i].gid));
    }
    assert forall|i: int| 0 <= i < gadgets[gid].outputs@.len() implies (#[trigger] gadgets[gid].outputs@[i]) is Some && window.gadgets@.contains(
        gadgets[gid].outputs@[i]->0.gid,
    ) by {
        assert(gadgets[gid].outputs@[i] is Some);
        assert(gadgets[gid].has_peer(gadgets[gid].outputs@[i]->0.gid));
    }
}

/// The gadget that a window is explored for is always committed: exploring the
/// mandatory zone leaves the whole buffer between it and the boundary.
pub proof fn law_center_is_committed(window: &ExploredWindow, gadgets: Map<u64, Gadget>, buffer_radius: int)
    requires
        buffer_radius >= 0,
        window.wf(gadgets),
        encloses(window, gadgets, buffer_radius),
        crate::window_region::symmetric(gadgets, window.gadgets@),
        buffer_radius > 0 ==> !gadgets[window.center_gid].is_free_hop,
        buffer_radius > 0 ==> gadgets[window.center_gid].state == crate::network::GadgetState::Uncommitted,
    ensures
        in_commit_region(gadgets, window.gadgets@, window.center_gid, buffer_radius, window.center_gid),
{
    if buffer_radius > 0 {
        assert(window.gadgets@.contains(window.center_gid));
        assert forall|gid: u64, walk: Seq<u64>| #[trigger] walk_from_center(
            gadgets,
            window.gadgets@,
            walk,
            window.center_gid,
            gid,
            buffer_radius - 1,
        ) implies !on_boundary(gadgets, window.gadgets@, gid) by {
            law_mandatory_zone_encloses_center(window, gadgets, buffer_radius, walk, gid);
        }
        crate::window_region::law_center_is_committable(gadgets, window.gadgets@, window.center_gid, buffer_radius);
    }
}

proof fn lemma_peers_kept(earlier: Map<u64, Gadget>, later: Map<u64, Gadget>, gid: u64, peer: u64)
    requires
        network_grew(later, earlier),
        earlier.contains_key(gid),
    ensures
        earlier[gid].has_peer(peer) ==> later[gid].has_peer(peer),
        connected(earlier, gid) ==> (later[gid].has_peer(peer) ==> earlier[gid].has_peer(peer)),
{
    let a = earlier[gid];
    let b = later[gid];
    if a.has_peer(peer) {
        if exists|i: int| 0 <= i < a.instance.connectors@.len() && (#[trigger] a.instance.connectors@[i]).gid == peer {
            let i = choose|i: int| 0 <= i < a.instance.connectors@.len() && (#[trigger] a.instance.connectors@[i]).gid == peer;
            assert(b.instance.connectors@[i].gid == peer);
        } else {
            let i = choose|i: int| 0 <= i < a.outputs@.len() && (#[trigger] a.outputs@[i]) is Some && a.outputs@[i]->0.gid == peer;
            assert(b.outputs@[i] == a.outputs@[i]);
        }
    }
    if connected(earlier, gid) && b.has_peer(peer) {
        if exists|i: int| 0 <= i < b.instance.connectors@.len() && (#[trigger] b.instance.connectors@[i]).gid == peer {
            let i = choose|i: int| 0 <= i < b.instance.connectors@.len() && (#[trigger] b.instance.connectors@[i]).gid == peer;
            assert(a.instance.connectors@[i].gid == peer);
        } else {
            let i = choose|i: int| 0 <= i < b.outputs@.len() && (#[trigger] b.outputs@[i]) is Some && b.outputs@[i]->0.gid == peer;
            assert(a.outputs@[i] is Some);
            assert(b.outputs@[i] == a.outputs@[i]);
        }
    }
}

proof fn lemma_hops_kept(earlier: Map<u64, Gadget>, later: Map<u64, Gadget>, walk: Seq<u64>, n: int)
    requires
        network_grew(later, earlier),
        0 <= n <= walk.len(),
        forall|i: int| 0 <= i < walk.len() ==> earlier.contains_key(#[trigger] walk[i]),
    ensures
        hops_upto(later, walk, n) == hops_upto(earlier, walk, n),
    decreases n,
{
    if n > 0 {
        lemma_hops_kept(earlier, later, walk, n - 1);
        assert(earlier.contains_key(walk[n - 1]));
    }
}

/// A window that is being explored stays valid while the program grows, so that
/// exploration can go on after a wait.
pub proof fn law_exploration_survives_growth(
    window: &ExploredWindow,
    earlier: Map<u64, Gadget>,
    later: Map<u64, Gadget>,
    radius: int,
    current: u64,
)
    requires
        zone_in_progress(window, earlier, radius, current),
        network_grew(later, earlier),
    ensures
        zone_in_progress(window, later, radius, current),
{
    assert forall|gid: u64| #[trigger] window.dist().contains_key(gid) implies later.contains_key(gid) && reached(
        later,
        window.dist(),
        window.center_gid,
        gid,
    ) by {
        let walk = choose|walk: Seq<u64>| #[trigger] walk_from_center(earlier, window.dist().dom(), walk, window.center_gid, gid, window.dist()[gid] as int);
        assert forall|i: int| 0 <= i < walk.len() implies earlier.contains_key(#[trigger] walk[i]) by {
            assert(window.dist().dom().contains(walk[i]));
            assert(window.dist().contains_key(walk[i]));
        }
        assert forall|i: int| 0 <= i < walk.len() - 1 implies later[#[trigger] walk[i]].has_peer(walk[i + 1]) by {
            assert(earlier.contains_key(walk[i]));
            lemma_peers_kept(earlier, later, walk[i], walk[i + 1]);
        }
        lemma_hops_kept(earlier, later, walk, walk.len() as int);
        assert(walk_from_center(later, window.dist().dom(), walk, window.center_gid, gid, window.dist()[gid] as int));
    }
    assert forall|gid: u64| #[trigger] window.dist().contains_key(gid) && 0 <= window.dist()[gid] < radius && !window.frontier@.contains(gid)
        && Some(current) != Some(gid) implies expanded(later, None, window.dist(), radius, gid) && connected(later, gid) by {
        assert(connected(earlier, gid));
        assert(expanded(earlier, None, window.dist(), radius, gid));
        assert forall|peer: u64| #[trigger] later[gid].has_peer(peer) implies earlier[gid].has_peer(peer) && earlier.contains_key(peer) && later.contains_key(peer) by {
            lemma_peers_kept(earlier, later, gid, peer);
        }
        assert forall|i: int| 0 <= i < later[gid].outputs@.len() implies (#[trigger] later[gid].outputs@[i]) is Some by {
            assert(earlier[gid].outputs@[i] is Some);
        }
        assert forall|p: u64| #[trigger] later[gid].has_peer(p) && later.contains_key(p) && admitted(later, None, p)
            && window.dist()[gid] + hops(later, p) <= radius implies window.dist().contains_key(p) && window.dist()[p] <= window.dist()[gid]
            + hops(later, p) by {
            assert(earlier[gid].has_peer(p));
        }
    }
    assert forall|gid: u64| #[trigger] window.dist().contains_key(gid) && later[gid].is_free_hop implies window.dist()[gid]
        <= window.dist()[current] by {
        assert(earlier.contains_key(gid));
    }
    assert(window.layered(later, window.dist()[current] as int, radius));
    assert(window.wf(later));
    assert(window.expanded_but(later, None, 0, radius, Some(current)));
    assert(window.closed_but(later, radius, Some(current)));
}

/// A complete zone has everything in reach: a gadget connected to one that is found, where
/// the way there is not longer than the radius, is found at no greater distance. Free hops
/// add nothing to a distance, all other gadgets one.
pub proof fn law_complete_zone_has_everything_in_reach(
    window: &ExploredWindow,
    gadgets: Map<u64, Gadget>,
    radius: int,
    gid: u64,
    peer: u64,
)
    requires
        zone_complete(window, gadgets, radius),
        window.dist().contains_key(gid),
        window.dist()[gid] < radius,
        gadgets[gid].has_peer(peer),
        gadgets[peer].is_free_hop || window.dist()[gid] + 1 <= radius,
    ensures
        window.gadgets@.contains(peer),
        gadgets[peer].is_free_hop ==> window.dist()[peer] <= window.dist()[gid],
        !gadgets[peer].is_free_hop ==> window.dist()[peer] <= window.dist()[gid] + 1,
{
    assert(connected(gadgets, gid));
    assert(expanded(gadgets, None, window.dist(), radius, gid));
    assert(gadgets.contains_key(peer));
    assert(window.dist().contains_key(peer));
}

/// The lookahead zone takes only gadgets that need no syndrome or have it.
pub proof fn law_lookahead_takes_ready_gadgets(
    before: &ExploredWindow,
    after: &ExploredWindow,
    gadgets: Map<u64, Gadget>,
    check_models: Map<u64, CheckModel>,
    limit: int,
    phase: ExplorePhase,
    gid: u64,
)
    requires
        grows(before, after, gadgets, Some(check_models), limit, phase),
        after.dist().contains_key(gid),
        !before.dist().contains_key(gid),
    ensures
        gadgets[gid].is_free_hop || gadgets[gid].binding_cid is None || (check_models.contains_key(
            gadgets[gid].binding_cid->0,
        ) && check_models[gadgets[gid].binding_cid->0].syndrome is Some),
        after.dist()[gid] <= limit,
        after.phase@[gid] == phase,
{
    assert(admitted(gadgets, Some(check_models), gid));
}

} // verus!
