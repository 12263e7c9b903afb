//! Clusters of connected gadgets, and what is counted for each cluster.
use vstd::prelude::*;
use vstd::set_lib::set_int_range;

verus! {

/// What is counted for a cluster. The counts wrap around like machine words;
/// `crate::organisation` shows that they stay exact.
#[derive(Debug, Clone, Copy, PartialEq, Eq, Structural)]
pub struct MonolithicUnionNode {
    /// how many gadgets are in the cluster
    pub set_size: usize,
    /// how many of them wait for their outcomes
    pub num_unloaded_gadgets: usize,
    /// how many of their output ports are not connected
    pub num_unconnected_outputs: usize,
}

/// Machine addition.
pub open spec fn plus(a: usize, b: usize) -> usize {
    vstd::wrapping::usize_specs::wrapping_add(a, b)
}

/// Machine subtraction.
pub open spec fn minus(a: usize, b: usize) -> usize {
    vstd::wrapping::usize_specs::wrapping_sub(a, b)
}

impl MonolithicUnionNode {
    /// The counts of two clusters taken together.
    pub open spec fn united(left: MonolithicUnionNode, right: MonolithicUnionNode) -> MonolithicUnionNode {
        MonolithicUnionNode {
            set_size: (left.set_size + right.set_size) as usize,
            num_unloaded_gadgets: plus(left.num_unloaded_gadgets, right.num_unloaded_gadgets),
            num_unconnected_outputs: plus(left.num_unconnected_outputs, right.num_unconnected_outputs),
        }
    }

    /// The counts of two clusters taken together, and whether the left one is to absorb
    /// the right one: the larger absorbs the smaller.
    pub fn union(left: &Self, right: &Self) -> (result: (bool, Self))
        requires
            left.set_size + right.set_size <= usize::MAX,
        ensures
            result.0 == (left.set_size >= right.set_size),
            result.1 == MonolithicUnionNode::united(*left, *right),
    {
        let result = MonolithicUnionNode {
            set_size: left.set_size + right.set_size,
            num_unloaded_gadgets: left.num_unloaded_gadgets.wrapping_add(right.num_unloaded_gadgets),
            num_unconnected_outputs: left.num_unconnected_outputs.wrapping_add(right.num_unconnected_outputs),
        };
        (left.set_size >= right.set_size, result)
    }

    /// Makes the node a cluster of one, keeping the other counts.
    pub fn clear(&mut self)
        ensures
            *final(self) == (MonolithicUnionNode { set_size: 1, ..*old(self) }),
    {
        self.set_size = 1;
    }

    /// A cluster of one with nothing counted.
    pub fn default() -> (node: Self)
        ensures
            node == (MonolithicUnionNode { set_size: 1, num_unloaded_gadgets: 0, num_unconnected_outputs: 0 }),
    {
        MonolithicUnionNode { set_size: 1, num_unloaded_gadgets: 0, num_unconnected_outputs: 0 }
    }

    /// Whether nothing is missing any more.
    pub open spec fn complete(self) -> bool {
        self.num_unloaded_gadgets == 0 && self.num_unconnected_outputs == 0
    }
}

/// Disjoint clusters of nodes. Each node knows its cluster; each cluster lists its
/// nodes, so that joining two clusters touches the nodes of the smaller one only.
pub struct UnionFind {
    label: Vec<usize>,
    members: Vec<Vec<usize>>,
    payload: Vec<MonolithicUnionNode>,
}

/// The value of a [`UnionFind`]: the cluster of each node, and the counts by cluster.
#[verifier::ext_equal]
pub struct Clusters {
    pub label: Seq<usize>,
    pub payload: Seq<MonolithicUnionNode>,
}

impl Clusters {
    /// No nodes.
    pub open spec fn empty() -> Clusters {
        Clusters { label: Seq::empty(), payload: Seq::empty() }
    }

    /// One more node, in a cluster of its own.
    pub open spec fn inserted(self, node: MonolithicUnionNode) -> Clusters {
        Clusters { label: self.label.push(self.label.len() as usize), payload: self.payload.push(node) }
    }

    /// The counts of the cluster of a node.
    pub open spec fn node(self, i: int) -> MonolithicUnionNode {
        self.payload[self.label[i] as int]
    }

    /// The counts of the cluster of a node, replaced.
    pub open spec fn with_node(self, i: int, node: MonolithicUnionNode) -> Clusters {
        Clusters { payload: self.payload.update(self.label[i] as int, node), ..self }
    }

    /// The clusters of two nodes joined: the larger one absorbs the smaller.
    pub open spec fn united(self, a: int, b: int) -> Clusters {
        let (la, lb) = (self.label[a], self.label[b]);
        if la == lb {
            self
        } else {
            let (winner, loser) = if self.payload[la as int].set_size >= self.payload[lb as int].set_size {
                (la, lb)
            } else {
                (lb, la)
            };
            Clusters {
                label: self.label.map_values(
                    |l: usize|
                        if l == loser {
                            winner
                        } else {
                            l
                        },
                ),
                payload: self.payload.update(
                    winner as int,
                    MonolithicUnionNode::united(self.payload[la as int], self.payload[lb as int]),
                ),
            }
        }
    }
}

impl UnionFind {
    /// Labels name clusters; the lists hold exactly the nodes of each cluster; the sizes
    /// are the lengths of the lists.
    pub closed spec fn wf(&self) -> bool {
        &&& self.members@.len() == self.label@.len()
        &&& self.payload@.len() == self.label@.len()
        &&& forall|i: int| 0 <= i < self.label@.len() ==> (#[trigger] self.label@[i]) < self.label@.len()
        &&& forall|i: int|
            0 <= i < self.label@.len() ==> (#[trigger] self.members@[self.label@[i] as int])@.contains(i as usize)
        &&& forall|r: int, k: int|
            0 <= r < self.members@.len() && 0 <= k < self.members@[r]@.len() ==> {
                &&& (#[trigger] self.members@[r]@[k]) < self.label@.len()
                &&& self.label@[self.members@[r]@[k] as int] == r
            }
        &&& forall|r: int| 0 <= r < self.members@.len() ==> (#[trigger] self.members@[r])@.no_duplicates()
        &&& forall|r: int|
            0 <= r < self.members@.len() && (#[trigger] self.members@[r])@.len() > 0 ==> self.payload@[r].set_size
                == self.members@[r]@.len()
    }

    /// The clusters.
    pub closed spec fn view(&self) -> Clusters {
        Clusters { label: self.label@, payload: self.payload@ }
    }

    /// Labels are within the tables.
    pub proof fn lemma_view(&self)
        requires
            self.wf(),
        ensures
            self@.payload.len() == self@.label.len(),
            self@.label.len() <= usize::MAX,
            forall|i: int| 0 <= i < self@.label.len() ==> (#[trigger] self@.label[i]) < self@.label.len(),
    {
        assert(self.label.len() == self.label@.len());
    }

    /// No nodes.
    pub fn new() -> (u: UnionFind)
        ensures
            u.wf(),
            u@ == Clusters::empty(),
    {
        UnionFind { label: Vec::new(), members: Vec::new(), payload: Vec::new() }
    }

    /// How many nodes there are.
    pub fn len(&self) -> (n: usize)
        ensures
            n == self@.label.len(),
    {
        self.label.len()
    }

    /// Adds a node in a cluster of its own.
    pub fn insert(&mut self, node: MonolithicUnionNode)
        requires
            old(self).wf(),
            node.set_size == 1,
        ensures
            final(self).wf(),
            final(self)@ == old(self)@.inserted(node),
    {
        let n: usize = self.label.len();
        let ghost before = *self;
        let mut alone: Vec<usize> = Vec::new();
        alone.push(n);
        assert(alone@[0] == n);
        self.label.push(n);
        self.members.push(alone);
        self.payload.push(node);
        proof {
            assert forall|i: int| 0 <= i < self.label@.len() implies (#[trigger] self.members@[self.label@[i] as int])@.contains(
                i as usize,
            ) by {
                if i < n {
                    assert(before.members@[before.label@[i] as int]@.contains(i as usize));
                    assert(before.label@[i] < n);
                }
            }
            assert forall|r: int, k: int| 0 <= r < self.members@.len() && 0 <= k < self.members@[r]@.len() implies (
            #[trigger] self.members@[r]@[k]) < self.label@.len() && self.label@[self.members@[r]@[k] as int] == r by {
                if r < n {
                    assert(before.members@[r]@[k] < n);
                }
            }
            assert(self@ =~= before@.inserted(node));
        }
    }

    /// The counts of the cluster of a node.
    pub fn get(&self, i: usize) -> (node: MonolithicUnionNode)
        requires
            self.wf(),
            i < self@.label.len(),
        ensures
            node == self@.node(i as int),
    {
        self.payload[self.label[i]]
    }

    /// Replaces the two counts of the cluster of a node.
    pub fn set_counts(&mut self, i: usize, num_unloaded_gadgets: usize, num_unconnected_outputs: usize)
        requires
            old(self).wf(),
            i < old(self)@.label.len(),
        ensures
            final(self).wf(),
            final(self)@ == old(self)@.with_node(
                i as int,
                (MonolithicUnionNode { num_unloaded_gadgets, num_unconnected_outputs, ..old(self)@.node(i as int) }),
            ),
    {
        let at: usize = self.label[i];
        let ghost before = *self;
        let set_size: usize = self.payload[at].set_size;
        self.payload.set(at, MonolithicUnionNode { set_size, num_unloaded_gadgets, num_unconnected_outputs });
        assert(self@ =~= before@.with_node(
            i as int,
            (MonolithicUnionNode { num_unloaded_gadgets, num_unconnected_outputs, ..before@.node(i as int) }),
        ));
    }

    /// Joins the clusters of two nodes.
    pub fn union(&mut self, a: usize, b: usize)
        requires
            old(self).wf(),
            a < old(self)@.label.len(),
            b < old(self)@.label.len(),
        ensures
            final(self).wf(),
            final(self)@ == old(self)@.united(a as int, b as int),
    {
        let ghost before = *self;
        let n: usize = self.label.len();
        let la: usize = self.label[a];
        let lb: usize = self.label[b];
        if la == lb {
            return ;
        }
        proof {
            assert(before.members@[la as int]@.contains(a as usize));
            assert(before.members@[lb as int]@.contains(b as usize));
            assert(before.members@[la as int]@.len() > 0);
            assert(before.members@[lb as int]@.len() > 0);
            before.lemma_sizes(la as int, lb as int);
        }
        let (keep_left, node) = MonolithicUnionNode::union(&self.payload[la], &self.payload[lb]);
        let (winner, loser): (usize, usize) = if keep_left {
            (la, lb)
        } else {
            (lb, la)
        };
        self.payload.set(winner, node);
        let mut moved: Vec<usize> = Vec::new();
        std::mem::swap(&mut moved, &mut self.members[loser]);
        let ghost moved_all = moved@;
        assert(moved_all == before.members@[loser as int]@);
        let mut k: usize = 0;
        while k < moved.len()
            invariant
                k <= moved@.len(),
                n == before.label@.len(),
                winner != loser,
                moved@ == moved_all,
                moved_all == before.members@[loser as int]@,
                before.wf(),
                winner < before.label@.len(),
                loser < before.label@.len(),
                self.payload@ == before.payload@.update(winner as int, node),
                self.label@.len() == before.label@.len(),
                self.members@ == before.members@.update(loser as int, self.members@[loser as int]),
                self.members@.len() == before.members@.len(),
                self.members@[loser as int]@ == Seq::<usize>::empty(),
                forall|i: int|
                    0 <= i < self.label@.len() ==> #[trigger] self.label@[i] == (if moved_all.take(k as int).contains(
                        i as usize,
                    ) {
                        winner
                    } else {
                        before.label@[i]
                    }),
            decreases moved@.len() - k,
        {
            let i: usize = moved[k];
            assert(before.members@[loser as int]@[k as int] < before.label@.len());
            self.label.set(i, winner);
            proof {
                assert(moved_all.take(k as int + 1) =~= moved_all.take(k as int).push(i));
                assert forall|j: int| 0 <= j < self.label@.len() implies #[trigger] self.label@[j] == (if moved_all.take(
                    k as int + 1,
                ).contains(j as usize) {
                    winner
                } else {
                    before.label@[j]
                }) by {
                    let more = moved_all.take(k as int).push(i);
                    if j == i {
                        assert(more[k as int] == i);
                    } else if more.contains(j as usize) {
                        let at = more.index_of(j as usize);
                        assert(more[at] == j as usize);
                        assert(j as usize != i);
                        assert(at < k);
                        assert(moved_all.take(k as int)[at] == j as usize);
                    } else if moved_all.take(k as int).contains(j as usize) {
                        let at = moved_all.take(k as int).index_of(j as usize);
                        assert(more[at] == j as usize);
                    }
                }
            }
            k += 1;
        }
        proof {
            assert(moved_all.take(moved_all.len() as int) =~= moved_all);
            assert forall|i: int| 0 <= i < self.label@.len() implies #[trigger] self.label@[i] == (if before.label@[i] == loser {
                winner
            } else {
                before.label@[i]
            }) by {
                if before.label@[i] == loser {
                    assert(before.members@[before.label@[i] as int]@.contains(i as usize));
                } else if moved_all.contains(i as usize) {
                    let at = moved_all.index_of(i as usize);
                    assert(before.label@[before.members@[loser as int]@[at] as int] == loser);
                }
            }
        }
        let ghost kept = self.members@[winner as int]@;
        self.members[winner].append(&mut moved);
        proof {
            let joined = self.members@[winner as int]@;
            assert(joined =~= kept + moved_all);
            assert(kept == before.members@[winner as int]@);
            assert forall|i: int| 0 <= i < self.label@.len() implies (#[trigger] self.members@[self.label@[i] as int])@.contains(
                i as usize,
            ) by {
                let was = before.label@[i];
                assert(before.members@[was as int]@.contains(i as usize));
                let at = before.members@[was as int]@.index_of(i as usize);
                if was == loser {
                    assert(joined[kept.len() + at] == i as usize);
                } else if was == winner {
                    assert(joined[at] == i as usize);
                }
            }
            assert forall|r: int, k: int| 0 <= r < self.members@.len() && 0 <= k < self.members@[r]@.len() implies (
            #[trigger] self.members@[r]@[k]) < self.label@.len() && self.label@[self.members@[r]@[k] as int] == r by {
                if r == winner {
                    if k < kept.len() {
                        assert(before.label@[before.members@[winner as int]@[k] as int] == winner);
                    } else {
                        assert(before.label@[before.members@[loser as int]@[k - kept.len()] as int] == loser);
                    }
                } else {
                    assert(r != loser);
                    assert(before.label@[before.members@[r]@[k] as int] == r);
                }
            }
            assert forall|r: int| 0 <= r < self.members@.len() implies (#[trigger] self.members@[r])@.no_duplicates() by {
                if r == winner {
                    assert forall|x: int, y: int| 0 <= x < y < joined.len() implies joined[x] != joined[y] by {
                        if y < kept.len() {
                            assert(before.members@[winner as int]@.no_duplicates());
                        } else if x >= kept.len() {
                            assert(before.members@[loser as int]@.no_duplicates());
                            assert(moved_all[x - kept.len()] != moved_all[y - kept.len()]);
                        } else {
                            assert(before.label@[before.members@[winner as int]@[x] as int] == winner);
                            assert(before.label@[before.members@[loser as int]@[y - kept.len()] as int] == loser);
                        }
                    }
                } else if r != loser {
                    assert(before.members@[r]@.no_duplicates());
                }
            }
            assert(joined.len() == before.members@[la as int]@.len() + before.members@[lb as int]@.len());
            assert(self.payload@[winner as int].set_size == joined.len());
            assert forall|r: int| 0 <= r < self.members@.len() && (#[trigger] self.members@[r])@.len() > 0 implies self.payload@[r].set_size
                == self.members@[r]@.len() by {
                if r != winner {
                    assert(r != loser);
                    assert(before.members@[r]@.len() > 0);
                }
            }
            assert(self@ =~= before@.united(a as int, b as int));
        }
    }

    /// Forgets all nodes.
    pub fn remove_all(&mut self)
        ensures
            final(self).wf(),
            final(self)@ == Clusters::empty(),
    {
        *self = UnionFind::new();
    }

    /// Two clusters together have no more nodes than there are.
    proof fn lemma_sizes(&self, r: int, s: int)
        requires
            self.wf(),
            0 <= r < self.members@.len(),
            0 <= s < self.members@.len(),
            r != s,
        ensures
            self.members@[r]@.len() + self.members@[s]@.len() <= self.label@.len(),
    {
        let (a, b) = (self.members@[r]@, self.members@[s]@);
        let both = (a + b).map_values(|i: usize| i as int);
        assert forall|x: int, y: int| 0 <= x < y < both.len() implies both[x] != both[y] by {
            if y < a.len() {
                assert(self.members@[r]@.no_duplicates());
            } else if x >= a.len() {
                assert(self.members@[s]@.no_duplicates());
                assert(b[x - a.len()] != b[y - a.len()]);
            } else {
                assert(self.label@[self.members@[r]@[x] as int] == r);
                assert(self.label@[self.members@[s]@[y - a.len()] as int] == s);
            }
        }
        both.unique_seq_to_set();
        let n = self.label@.len() as int;
        vstd::set_lib::lemma_int_range(0, n);
        assert forall|v: int| both.to_set().contains(v) implies set_int_range(0, n).contains(v) by {
            let x = both.index_of(v);
            if x < a.len() {
                assert(self.members@[r]@[x] < n);
            } else {
                assert(self.members@[s]@[x - a.len()] < n);
            }
        }
        vstd::set_lib::lemma_len_subset(both.to_set(), set_int_range(0, n));
    }
}

/// Joining two nodes joins their clusters and no others: their counts are added, and every
/// other cluster keeps its members and counts.
pub proof fn law_union_joins_two_clusters(c: Clusters, a: int, b: int, i: int, j: int)
    requires
        0 <= a < c.label.len(),
        0 <= b < c.label.len(),
        0 <= i < c.label.len(),
        0 <= j < c.label.len(),
        forall|k: int| 0 <= k < c.label.len() ==> (#[trigger] c.label[k]) < c.payload.len(),
    ensures
        ({
            let after = c.united(a, b);
            let in_one = |k: int| c.label[k] == c.label[a] || c.label[k] == c.label[b];
            &&& after.label.len() == c.label.len()
            &&& after.label[i] == after.label[j] <==> c.label[i] == c.label[j] || (in_one(i) && in_one(j))
            &&& !in_one(i) ==> after.node(i) == c.node(i)
            &&& in_one(i) && c.label[a] != c.label[b] ==> {
                &&& after.node(i).set_size == (c.node(a).set_size + c.node(b).set_size) as usize
                &&& after.node(i).num_unloaded_gadgets == vstd::wrapping::usize_specs::wrapping_add(
                    c.node(a).num_unloaded_gadgets,
                    c.node(b).num_unloaded_gadgets,
                )
                &&& after.node(i).num_unconnected_outputs == vstd::wrapping::usize_specs::wrapping_add(
                    c.node(a).num_unconnected_outputs,
                    c.node(b).num_unconnected_outputs,
                )
            }
            &&& c.label[a] == c.label[b] ==> after.node(i) == c.node(i)
        }),
{
    assert(c.label[a] < c.payload.len() && c.label[b] < c.payload.len() && c.label[i] < c.payload.len());
}

} // verus!
