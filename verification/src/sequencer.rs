//! Numbering of remote instances: explicit references are turned into references to a
//! numbered list of remotes, each with the least index used as its bias.
use crate::collections::{IdMap, PairSet};
use vstd::prelude::*;

verus! {

/// A reference: an index of the instance itself, or of a numbered remote.
#[derive(Debug, Clone, Copy, PartialEq, Eq, Structural)]
pub struct RemoteRef {
    pub remote: Option<u64>,
    pub index: u64,
}

/// The order of references: local ones first, then by remote, then by index.
pub open spec fn ref_before(a: RemoteRef, b: RemoteRef) -> bool {
    match (a.remote, b.remote) {
        (None, None) => a.index < b.index,
        (None, Some(_)) => true,
        (Some(_), None) => false,
        (Some(i), Some(j)) => i < j || (i == j && a.index < b.index),
    }
}

/// References in order, each once.
pub open spec fn refs_sorted(refs: Seq<RemoteRef>) -> bool {
    forall|i: int, j: int| 0 <= i < j < refs.len() ==> ref_before(refs[i], refs[j])
}

/// What a reference stands for.
pub open spec fn explicit(r: RemoteRef, ids: Seq<u64>, current: u64) -> (u64, u64) {
    match r.remote {
        None => (current, r.index),
        Some(i) => (ids[i as int], r.index),
    }
}

/// A reference is to a numbered remote, and not below its bias.
pub open spec fn ref_valid(r: RemoteRef, ids: Seq<u64>, minima: Seq<u64>) -> bool {
    r.remote matches Some(i) ==> i < ids.len() && minima[i as int] <= r.index
}

/// References stand for exactly the given pairs.
pub open spec fn refs_stand_for(refs: Seq<RemoteRef>, ids: Seq<u64>, current: u64, pairs: Set<(u64, u64)>) -> bool {
    &&& forall|k: int| 0 <= k < refs.len() ==> pairs.contains(#[trigger] explicit(refs[k], ids, current))
    &&& forall|p: (u64, u64)| #[trigger]
        pairs.contains(p) ==> exists|k: int| 0 <= k < refs.len() && #[trigger] explicit(refs[k], ids, current) == p
}

/// Numbers remotes in the order in which they are first used.
pub struct Sequencer {
    index: IdMap,
    ids: Vec<u64>,
    minima: Vec<u64>,
}

/// Inserts a reference at its place.
fn insert_ref(refs: &mut Vec<RemoteRef>, r: RemoteRef)
    requires
        refs_sorted(old(refs)@),
        !old(refs)@.contains(r),
    ensures
        refs_sorted(final(refs)@),
        exists|at: int| 0 <= at <= old(refs)@.len() && final(refs)@ == #[trigger] old(refs)@.insert(at, r),
{
    let mut at: usize = refs.len();
    while at > 0 && is_before(&r, &refs[at - 1])
        invariant
            at <= refs@.len(),
            refs@ == old(refs)@,
            !refs@.contains(r),
            refs_sorted(refs@),
            forall|k: int| at <= k < refs@.len() ==> ref_before(r, refs@[k]),
        decreases at,
    {
        at -= 1;
    }
    proof {
        assert forall|k: int| 0 <= k < at implies ref_before(refs@[k], r) by {
            assert(refs@[at - 1] != r);
            assert(ref_before(refs@[at - 1], r));
            if k < at - 1 {
                assert(ref_before(refs@[k], refs@[at - 1]));
            }
        }
    }
    refs.insert(at, r);
    assert(refs@ == old(refs)@.insert(at as int, r));
}

/// Whether a reference comes before another.
fn is_before(a: &RemoteRef, b: &RemoteRef) -> (before: bool)
    ensures
        before == ref_before(*a, *b),
{
    match (a.remote, b.remote) {
        (None, None) => a.index < b.index,
        (None, Some(_)) => true,
        (Some(_), None) => false,
        (Some(i), Some(j)) => i < j || (i == j && a.index < b.index),
    }
}

impl Sequencer {
    /// Every remote is numbered once.
    pub closed spec fn wf(&self) -> bool {
        &&& self.minima@.len() == self.ids@.len()
        &&& forall|i: int| 0 <= i < self.ids@.len() ==> #[trigger] self.index@.contains_key(self.ids@[i])
        &&& forall|i: int| 0 <= i < self.ids@.len() ==> self.index@[#[trigger] self.ids@[i]] == i
        &&& forall|id: u64| #[trigger]
            self.index@.contains_key(id) ==> self.index@[id] < self.ids@.len() && self.ids@[self.index@[id] as int] == id
    }

    /// The remotes, by number.
    pub closed spec fn ids(&self) -> Seq<u64> {
        self.ids@
    }

    /// The least index used of each remote.
    pub closed spec fn minima(&self) -> Seq<u64> {
        self.minima@
    }

    /// Remotes are distinct, and each has its least index.
    pub proof fn lemma_wf(&self)
        requires
            self.wf(),
        ensures
            self.minima().len() == self.ids().len(),
            self.ids().len() <= usize::MAX,
            self.ids().no_duplicates(),
    {
        assert(self.ids.len() == self.ids@.len());
        assert forall|i: int, j: int| 0 <= i < self.ids@.len() && 0 <= j < self.ids@.len() && i != j implies self.ids@[i] != self.ids@[j] by {
            assert(self.index@[self.ids@[i]] == i);
            assert(self.index@[self.ids@[j]] == j);
        }
    }

    /// A later state: no remote is renumbered, no bias is raised.
    pub open spec fn grew(before: &Sequencer, after: &Sequencer) -> bool {
        &&& before.ids().len() <= after.ids().len()
        &&& forall|i: int| 0 <= i < before.ids().len() ==> after.ids()[i] == #[trigger] before.ids()[i]
        &&& forall|i: int| 0 <= i < before.ids().len() ==> after.minima()[i] <= #[trigger] before.minima()[i]
    }

    /// Every new or lowered bias is the index of one of the references.
    pub open spec fn attained(before: &Sequencer, after: &Sequencer, refs: Seq<RemoteRef>) -> bool {
        forall|i: int|
            0 <= i < after.ids().len() ==> (i < before.ids().len() && #[trigger] after.minima()[i] == before.minima()[i])
                || refs.contains(RemoteRef { remote: Some(i as u64), index: after.minima()[i] })
    }

    /// No remotes.
    pub fn new() -> (s: Sequencer)
        ensures
            s.wf(),
            s.ids() == Seq::<u64>::empty(),
            s.minima() == Seq::<u64>::empty(),
    {
        Sequencer { index: IdMap::new(), ids: Vec::new(), minima: Vec::new() }
    }

    /// How many remotes there are.
    pub fn len(&self) -> (n: usize)
        ensures
            n == self.ids().len(),
    {
        self.ids.len()
    }

    /// The remote with the given number.
    pub fn id(&self, i: usize) -> (id: u64)
        requires
            i < self.ids().len(),
        ensures
            id == self.ids()[i as int],
    {
        self.ids[i]
    }

    /// The least index used of a remote.
    pub fn bias(&self, i: usize) -> (bias: u64)
        requires
            self.wf(),
            i < self.ids().len(),
        ensures
            bias == self.minima()[i as int],
    {
        self.minima[i]
    }

    /// The number of a remote, of which `index` is used.
    fn get_or_insert(&mut self, id: u64, index: u64) -> (number: u64)
        requires
            old(self).wf(),
        ensures
            final(self).wf(),
            Self::grew(old(self), final(self)),
            number < final(self).ids().len(),
            final(self).ids()[number as int] == id,
            final(self).minima()[number as int] <= index,
            forall|i: int| old(self).ids().len() <= i < final(self).ids().len() ==> #[trigger] final(self).ids()[i] == id,
            Self::attained(old(self), final(self), seq![RemoteRef { remote: Some(number), index }]),
    {
        let ghost before = *self;
        match self.index.get(id) {
            Some(at) => {
                assert(self.index@.contains_key(id));
                if index < self.minima[at] {
                    self.minima.set(at, index);
                }
                let ghost refs = seq![RemoteRef { remote: Some(at as u64), index }];
                assert(refs[0] == (RemoteRef { remote: Some(at as u64), index }));
                assert(refs.contains(refs[0]));
                at as u64
            },
            None => {
                let at: usize = self.ids.len();
                self.index.insert(id, at);
                self.ids.push(id);
                self.minima.push(index);
                proof {
                    assert forall|i: int| 0 <= i < self.ids@.len() implies #[trigger] self.index@.contains_key(self.ids@[i]) by {
                        if i < at {
                            assert(before.index@.contains_key(before.ids@[i]));
                        }
                    }
                    assert forall|i: int| 0 <= i < self.ids@.len() implies self.index@[#[trigger] self.ids@[i]] == i by {
                        if i < at {
                            assert(before.index@.contains_key(before.ids@[i]));
                            assert(before.index@[before.ids@[i]] == i);
                        }
                    }
                    assert forall|other: u64| #[trigger] self.index@.contains_key(other) implies self.index@[other] < self.ids@.len()
                        && self.ids@[self.index@[other] as int] == other by {
                        if other != id {
                            assert(before.index@.contains_key(other));
                        }
                    }
                    let refs = seq![RemoteRef { remote: Some(at as u64), index }];
                    assert(refs[0] == (RemoteRef { remote: Some(at as u64), index }));
                    assert(refs.contains(refs[0]));
                }
                at as u64
            },
        }
    }

    /// Turns explicit pairs into references, in order: pairs of `current` are local, the
    /// others refer to numbered remotes.
    pub fn sequence(&mut self, pairs: &Vec<(u64, u64)>, current: u64) -> (refs: Vec<RemoteRef>)
        requires
            old(self).wf(),
            pairs@.no_duplicates(),
        ensures
            final(self).wf(),
            Self::grew(old(self), final(self)),
            refs_sorted(refs@),
            refs@.len() == pairs@.len(),
            forall|k: int| 0 <= k < refs@.len() ==> ref_valid(#[trigger] refs@[k], final(self).ids(), final(self).minima()),
            refs_stand_for(refs@, final(self).ids(), current, pairs@.to_set()),
            Self::attained(old(self), final(self), refs@),
            forall|i: int| old(self).ids().len() <= i < final(self).ids().len() ==> #[trigger] final(self).ids()[i] != current,
    {
        let ghost start = *self;
        let mut refs: Vec<RemoteRef> = Vec::new();
        let mut n: usize = 0;
        proof {
            assert(pairs@.take(0).to_set() =~= Set::<(u64, u64)>::empty());
        }
        while n < pairs.len()
            invariant
                n <= pairs@.len(),
                pairs@.no_duplicates(),
                self.wf(),
                start.wf(),
                start == *old(self),
                Self::grew(&start, self),
                refs_sorted(refs@),
                refs@.len() == n,
                forall|k: int| 0 <= k < refs@.len() ==> ref_valid(#[trigger] refs@[k], self.ids(), self.minima()),
                refs_stand_for(refs@, self.ids(), current, pairs@.take(n as int).to_set()),
                Self::attained(&start, self, refs@),
                forall|i: int| start.ids().len() <= i < self.ids().len() ==> #[trigger] self.ids()[i] != current,
            decreases pairs@.len() - n,
        {
            let (id, index) = pairs[n];
            let ghost before = *self;
            let ghost list = refs@;
            let remote: Option<u64> = if id == current {
                None
            } else {
                Some(self.get_or_insert(id, index))
            };
            let r = RemoteRef { remote, index };
            assert(!refs@.contains(r)) by {
                if refs@.contains(r) {
                    let k = refs@.index_of(r);
                    assert(ref_valid(refs@[k], before.ids(), before.minima()));
                    assert(explicit(refs@[k], before.ids(), current) == (id, index));
                    assert(pairs@.take(n as int).contains((id, index)));
                    let m = pairs@.take(n as int).index_of((id, index));
                    assert(pairs@[m] == pairs@[n as int]);
                }
            }
            insert_ref(&mut refs, r);
            proof {
                let at = choose|at: int| 0 <= at <= list.len() && refs@ == #[trigger] list.insert(at, r);
                start.lemma_wf();
                before.lemma_wf();
                self.lemma_wf();
                assert(Self::grew(&before, self));
                assert(Self::attained(&before, self, seq![r])) by {
                    assert(seq![r][0] == r);
                }
                assert(pairs@.take(n as int + 1) =~= pairs@.take(n as int).push((id, index)));
                pairs@.take(n as int).lemma_push_to_set_commute((id, index));
                lemma_ref_added(&start, &before, self, list, refs@, at, r, current, pairs@.take(n as int).to_set(), (id, index));
                assert forall|i: int| start.ids().len() <= i < self.ids().len() implies #[trigger] self.ids()[i] != current by {
                    if i < before.ids().len() {
                        assert(self.ids()[i] == before.ids()[i]);
                    }
                }
            }
            n += 1;
        }
        assert(pairs@.take(pairs@.len() as int) =~= pairs@);
        refs
    }

    /// Counts the indices of remotes from their biases.
    pub fn unbias(&self, refs: &mut Vec<RemoteRef>)
        requires
            self.wf(),
            forall|k: int| 0 <= k < old(refs)@.len() ==> ref_valid(#[trigger] old(refs)@[k], self.ids(), self.minima()),
        ensures
            final(refs)@ == old(refs)@.map_values(|r: RemoteRef| unbiased(r, self.minima())),
    {
        let ghost all = refs@;
        let mut k: usize = 0;
        while k < refs.len()
            invariant
                k <= refs@.len(),
                self.wf(),
                refs@.len() == all.len(),
                forall|i: int| 0 <= i < all.len() ==> ref_valid(#[trigger] all[i], self.ids(), self.minima()),
                forall|i: int| 0 <= i < k ==> #[trigger] refs@[i] == unbiased(all[i], self.minima()),
                forall|i: int| k <= i < all.len() ==> #[trigger] refs@[i] == all[i],
            decreases refs@.len() - k,
        {
            let r = refs[k];
            assert(r == all[k as int]);
            assert(ref_valid(all[k as int], self.ids(), self.minima()));
            if let Some(i) = r.remote {
                assert(i < self.minima.len());
                let bias: u64 = self.minima[i as usize];
                refs.set(k, RemoteRef { remote: r.remote, index: r.index - bias });
            }
            k += 1;
        }
        assert(refs@ =~= all.map_values(|r: RemoteRef| unbiased(r, self.minima())));
    }
}

/// A reference with its index counted from the bias of its remote.
pub open spec fn unbiased(r: RemoteRef, minima: Seq<u64>) -> RemoteRef {
    match r.remote {
        None => r,
        Some(i) => RemoteRef { remote: r.remote, index: (r.index - minima[i as int]) as u64 },
    }
}

/// References stay valid while remotes are added and biases lowered.
pub proof fn lemma_refs_stay_valid(before: &Sequencer, after: &Sequencer, refs: Seq<RemoteRef>, current: u64, pairs: Set<(u64, u64)>)
    requires
        before.wf(),
        after.wf(),
        Sequencer::grew(before, after),
        forall|k: int| 0 <= k < refs.len() ==> ref_valid(#[trigger] refs[k], before.ids(), before.minima()),
        refs_stand_for(refs, before.ids(), current, pairs),
    ensures
        forall|k: int| 0 <= k < refs.len() ==> ref_valid(#[trigger] refs[k], after.ids(), after.minima()),
        refs_stand_for(refs, after.ids(), current, pairs),
{
    before.lemma_wf();
    after.lemma_wf();
    assert forall|k: int| 0 <= k < refs.len() implies ref_valid(#[trigger] refs[k], after.ids(), after.minima()) && explicit(
        refs[k],
        after.ids(),
        current,
    ) == explicit(refs[k], before.ids(), current) by {
        assert(ref_valid(refs[k], before.ids(), before.minima()));
        if let Some(i) = refs[k].remote {
            assert(after.ids()[i as int] == before.ids()[i as int]);
            assert(after.minima()[i as int] <= before.minima()[i as int]);
        }
    }
    assert forall|p: (u64, u64)| #[trigger] pairs.contains(p) implies exists|k: int|
        0 <= k < refs.len() && #[trigger] explicit(refs[k], after.ids(), current) == p by {
        let k = choose|k: int| 0 <= k < refs.len() && #[trigger] explicit(refs[k], before.ids(), current) == p;
        assert(explicit(refs[k], after.ids(), current) == p);
    }
}

/// One more reference stands for one more pair.
proof fn lemma_ref_added(
    start: &Sequencer,
    before: &Sequencer,
    after: &Sequencer,
    list: Seq<RemoteRef>,
    refs: Seq<RemoteRef>,
    at: int,
    r: RemoteRef,
    current: u64,
    pairs: Set<(u64, u64)>,
    pair: (u64, u64),
)
    requires
        start.wf(),
        before.wf(),
        after.wf(),
        Sequencer::grew(start, before),
        Sequencer::grew(before, after),
        Sequencer::attained(start, before, list),
        Sequencer::attained(before, after, seq![r]),
        0 <= at <= list.len(),
        refs == list.insert(at, r),
        forall|k: int| 0 <= k < list.len() ==> ref_valid(#[trigger] list[k], before.ids(), before.minima()),
        refs_stand_for(list, before.ids(), current, pairs),
        ref_valid(r, after.ids(), after.minima()),
        explicit(r, after.ids(), current) == pair,
    ensures
        Sequencer::grew(start, after),
        forall|k: int| 0 <= k < refs.len() ==> ref_valid(#[trigger] refs[k], after.ids(), after.minima()),
        refs_stand_for(refs, after.ids(), current, pairs.insert(pair)),
        Sequencer::attained(start, after, refs),
{
    start.lemma_wf();
    before.lemma_wf();
    after.lemma_wf();
    list.insert_ensures(at, r);
    lemma_refs_stay_valid(before, after, list, current, pairs);
    assert forall|k: int| 0 <= k < refs.len() implies ref_valid(#[trigger] refs[k], after.ids(), after.minima()) && pairs.insert(
        pair,
    ).contains(explicit(refs[k], after.ids(), current)) by {
        if k < at {
            assert(refs[k] == list[k]);
            assert(pairs.contains(explicit(list[k], after.ids(), current)));
        } else if k > at {
            assert(refs[k] == list[k - 1]);
            assert(pairs.contains(explicit(list[k - 1], after.ids(), current)));
        }
    }
    assert forall|p: (u64, u64)| #[trigger] pairs.insert(pair).contains(p) implies exists|k: int|
        0 <= k < refs.len() && #[trigger] explicit(refs[k], after.ids(), current) == p by {
        if p == pair {
            assert(explicit(refs[at], after.ids(), current) == p);
        } else {
            assert(pairs.contains(p));
            let k = choose|k: int| 0 <= k < list.len() && #[trigger] explicit(list[k], after.ids(), current) == p;
            if k < at {
                assert(refs[k] == list[k]);
                assert(explicit(refs[k], after.ids(), current) == p);
            } else {
                assert(refs[k + 1] == list[k]);
                assert(explicit(refs[k + 1], after.ids(), current) == p);
            }
        }
    }
    assert forall|i: int| 0 <= i < start.ids().len() implies after.ids()[i] == #[trigger] start.ids()[i] by {
        assert(before.ids()[i] == start.ids()[i]);
    }
    assert forall|i: int| 0 <= i < start.ids().len() implies after.minima()[i] <= #[trigger] start.minima()[i] by {
        assert(before.minima()[i] <= start.minima()[i]);
    }
    assert(Sequencer::attained(start, after, refs)) by {
        assert forall|i: int| 0 <= i < after.ids().len() implies (i < start.ids().len() && #[trigger] after.minima()[i]
            == start.minima()[i]) || refs.contains(RemoteRef { remote: Some(i as u64), index: after.minima()[i] }) by {
            let x = RemoteRef { remote: Some(i as u64), index: after.minima()[i] };
            if seq![r].contains(x) {
                assert(seq![r][0] == r);
                assert(x == r);
                assert(refs[at] == r);
            } else {
                assert(i < before.ids().len() && after.minima()[i] == before.minima()[i]);
                if !(i < start.ids().len() && before.minima()[i] == start.minima()[i]) {
                    assert(list.contains(x));
                    let k = list.index_of(x);
                    if k < at {
                        assert(refs[k] == x);
                    } else {
                        assert(refs[k + 1] == x);
                    }
                }
            }
        }
    }
}

/// Counting from the bias and adding it again gives the reference back.
pub proof fn law_bias_is_undone(r: RemoteRef, ids: Seq<u64>, minima: Seq<u64>)
    requires
        ref_valid(r, ids, minima),
        minima.len() == ids.len(),
    ensures
        unbiased(r, minima).remote == r.remote,
        r.remote matches Some(i) ==> unbiased(r, minima).index + minima[i as int] == r.index,
        r.remote is None ==> unbiased(r, minima) == r,
{
}

// ---------------------------------------------------------------------------
// Several lists
// ---------------------------------------------------------------------------

/// The references of several lists, over the same remotes.
pub struct Sequenced {
    pub remotes: Sequencer,
    pub lists: Vec<Vec<RemoteRef>>,
}

/// List `f` stands for the set that it was made from, if any, in order.
pub open spec fn list_stands(lists: Seq<Vec<RemoteRef>>, f: int, remotes: &Sequencer, current: u64, sets: Seq<Option<Set<(u64, u64)>>>) -> bool {
    match sets[f] {
        Some(set) => {
            &&& refs_sorted(lists[f]@)
            &&& forall|k: int| 0 <= k < lists[f]@.len() ==> ref_valid(#[trigger] lists[f]@[k], remotes.ids(), remotes.minima())
            &&& refs_stand_for(lists[f]@, remotes.ids(), current, set)
        },
        None => lists[f]@ == Seq::<RemoteRef>::empty(),
    }
}

/// Some list uses the bias of remote `i`.
pub open spec fn bias_used(lists: Seq<Vec<RemoteRef>>, remotes: &Sequencer, i: int) -> bool {
    exists|f: int|
        0 <= f < lists.len() && (#[trigger] lists[f])@.contains(
            RemoteRef { remote: Some(i as u64), index: remotes.minima()[i] },
        )
}

/// The optional sets.
pub open spec fn sets_view(sets: Seq<Option<PairSet>>) -> Seq<Option<Set<(u64, u64)>>> {
    sets.map_values(
        |s: Option<PairSet>|
            match s {
                Some(set) => Some(set@),
                None => None,
            },
    )
}

/// Turns sets of explicit pairs into lists of references; an absent set gives an empty
/// list.
pub fn sequence_sets(sets: &Vec<Option<PairSet>>, current: u64) -> (all: Sequenced)
    ensures
        all.remotes.wf(),
        all.lists@.len() == sets@.len(),
        forall|f: int|
            0 <= f < sets@.len() ==> #[trigger] list_stands(all.lists@, f, &all.remotes, current, sets_view(sets@)),
        forall|i: int| 0 <= i < all.remotes.ids().len() ==> #[trigger] bias_used(all.lists@, &all.remotes, i),
        forall|i: int|
            0 <= i < all.remotes.ids().len() ==> used_in((#[trigger] all.remotes.ids()[i]), sets_view(sets@)) && all.remotes.ids()[i]
                != current,
{
    let mut remotes = Sequencer::new();
    let mut lists: Vec<Vec<RemoteRef>> = Vec::new();
    let ghost views = sets_view(sets@);
    let mut n: usize = 0;
    while n < sets.len()
        invariant
            n <= sets@.len(),
            views == sets_view(sets@),
            remotes.wf(),
            lists@.len() == n,
            forall|f: int| 0 <= f < n ==> #[trigger] list_stands(lists@, f, &remotes, current, views),
            forall|i: int| 0 <= i < remotes.ids().len() ==> #[trigger] bias_used(lists@, &remotes, i),
            forall|i: int|
                0 <= i < remotes.ids().len() ==> used_in((#[trigger] remotes.ids()[i]), views) && remotes.ids()[i] != current,
        decreases sets@.len() - n,
    {
        let ghost before = remotes;
        let ghost earlier = lists@;
        let refs: Vec<RemoteRef> = match &sets[n] {
            Some(set) => {
                let pairs = set.items();
                remotes.sequence(&pairs, current)
            },
            None => Vec::new(),
        };
        let ghost more = refs@;
        lists.push(refs);
        proof {
            before.lemma_wf();
            remotes.lemma_wf();
            assert forall|f: int| 0 <= f < n + 1 implies #[trigger] list_stands(lists@, f, &remotes, current, views) by {
                if f < n {
                    assert(list_stands(earlier, f, &before, current, views));
                    if let Some(set) = views[f] {
                        lemma_refs_stay_valid(&before, &remotes, earlier[f]@, current, set);
                    }
                }
            }
            assert forall|i: int| 0 <= i < remotes.ids().len() implies #[trigger] bias_used(lists@, &remotes, i) by {
                let x = RemoteRef { remote: Some(i as u64), index: remotes.minima()[i] };
                if i < before.ids().len() && remotes.minima()[i] == before.minima()[i] {
                    assert(bias_used(earlier, &before, i));
                    let f = choose|f: int| 0 <= f < earlier.len() && (#[trigger] earlier[f])@.contains(x);
                    assert(lists@[f]@.contains(x));
                } else {
                    assert(more.contains(x));
                    assert(lists@[n as int]@.contains(x));
                }
            }
            assert forall|i: int| 0 <= i < remotes.ids().len() implies used_in((#[trigger] remotes.ids()[i]), views)
                && remotes.ids()[i] != current by {
                if i < before.ids().len() {
                    assert(remotes.ids()[i] == before.ids()[i]);
                } else {
                    let x = RemoteRef { remote: Some(i as u64), index: remotes.minima()[i] };
                    assert(more.contains(x));
                    let k = more.index_of(x);
                    let p = explicit(more[k], remotes.ids(), current);
                    assert(views[n as int] is Some);
                    assert(views[n as int]->0.contains(p));
                }
            }
        }
        n += 1;
    }
    Sequenced { remotes, lists }
}

/// Some set has a pair of the given instance.
pub open spec fn used_in(id: u64, sets: Seq<Option<Set<(u64, u64)>>>) -> bool {
    exists|f: int, p: (u64, u64)|
        0 <= f < sets.len() && sets[f] is Some && #[trigger] sets[f]->0.contains(p) && p.0 == id
}

} // verus!
