//! Hash collections of `hashbrown`, held behind contracts over mathematical
//! sets and maps.
//!
//! A hash table is walked in an order that differs from run to run, so nothing
//! here names that order: a walk hands out every element exactly once and that
//! is all a caller may rely on.
use vstd::prelude::*;

verus! {

/// A set of instance ids.
#[verifier::external_body]
pub struct IdSet {
    set: hashbrown::HashSet<u64>,
}

/// The ids that a set holds.
pub uninterp spec fn id_set_contents(s: IdSet) -> Set<u64>;

impl View for IdSet {
    type V = Set<u64>;

    open spec fn view(&self) -> Set<u64> {
        id_set_contents(*self)
    }
}

impl IdSet {
    /// `hashbrown::HashSet::new`: the new set is empty.
    #[verifier::external_body]
    pub(crate) fn new() -> (s: IdSet)
        ensures
            id_set_contents(s) == Set::<u64>::empty(),
    {
        IdSet { set: hashbrown::HashSet::new() }
    }

    /// `hashbrown::HashSet::contains`: whether the id is in the set.
    #[verifier::external_body]
    pub(crate) fn contains(&self, id: u64) -> (found: bool)
        ensures
            found == id_set_contents(*self).contains(id),
    {
        self.set.contains(&id)
    }

    /// `hashbrown::HashSet::insert`: the id is in the set afterwards; the result
    /// says whether it was new.
    #[verifier::external_body]
    pub(crate) fn insert(&mut self, id: u64) -> (fresh: bool)
        ensures
            id_set_contents(*final(self)) == id_set_contents(*old(self)).insert(id),
            fresh == !id_set_contents(*old(self)).contains(id),
    {
        self.set.insert(id)
    }

    /// `hashbrown::HashSet::remove`: the id is out of the set afterwards; the
    /// result says whether it was there.
    #[verifier::external_body]
    pub(crate) fn remove(&mut self, id: u64) -> (present: bool)
        ensures
            id_set_contents(*final(self)) == id_set_contents(*old(self)).remove(id),
            present == id_set_contents(*old(self)).contains(id),
    {
        self.set.remove(&id)
    }

    /// `hashbrown::HashSet::iter`: every id of the set exactly once, in no
    /// particular order.
    #[verifier::external_body]
    pub(crate) fn items(&self) -> (ids: Vec<u64>)
        ensures
            ids@.no_duplicates(),
            ids@.to_set() == id_set_contents(*self),
    {
        self.set.iter().copied().collect()
    }

    /// The set of the listed ids.
    pub fn from_ids(ids: &Vec<u64>) -> (s: IdSet)
        ensures
            s@ == ids@.to_set(),
    {
        let mut s = IdSet::new();
        let mut i: usize = 0;
        proof {
            assert(ids@.take(0).to_set() =~= Set::<u64>::empty());
        }
        while i < ids.len()
            invariant
                i <= ids@.len(),
                s@ == ids@.take(i as int).to_set(),
            decreases ids@.len() - i,
        {
            s.insert(ids[i]);
            proof {
                assert(ids@.take(i as int + 1) =~= ids@.take(i as int).push(ids@[i as int]));
                ids@.take(i as int).lemma_push_to_set_commute(ids@[i as int]);
            }
            i += 1;
        }
        proof {
            assert(ids@.take(ids@.len() as int) =~= ids@);
        }
        s
    }

    /// The listed ids in increasing order.
    pub fn sorted_ids(&self) -> (ids: Vec<u64>)
        ensures
            ids@.to_set() == self@,
            crate::order::strictly_increasing(ids@),
    {
        let mut ids = self.items();
        let ghost before = ids@;
        crate::order::sort_ids(&mut ids);
        proof {
            crate::order::lemma_sorted_distinct(before, ids@);
        }
        ids
    }

    /// Whether the id is in the set.
    pub fn has(&self, id: u64) -> (found: bool)
        ensures
            found == self@.contains(id),
    {
        self.contains(id)
    }
}

/// A set of pairs of an instance and an index.
#[verifier::external_body]
pub struct PairSet {
    set: hashbrown::HashSet<(u64, u64)>,
}

/// The pairs that a set holds.
pub uninterp spec fn pair_set_contents(s: PairSet) -> Set<(u64, u64)>;

impl View for PairSet {
    type V = Set<(u64, u64)>;

    open spec fn view(&self) -> Set<(u64, u64)> {
        pair_set_contents(*self)
    }
}

impl PairSet {
    /// `hashbrown::HashSet::new`: the new set is empty.
    #[verifier::external_body]
    pub(crate) fn new() -> (s: PairSet)
        ensures
            (pair_set_contents(s) == Set::<(u64, u64)>::empty()),
    {
        PairSet { set: hashbrown::HashSet::new() }
    }

    /// `hashbrown::HashSet::insert`: the pair is in the set afterwards.
    #[verifier::external_body]
    pub(crate) fn insert(&mut self, pair: (u64, u64))
        ensures
            pair_set_contents(*final(self)) == pair_set_contents(*old(self)).insert(pair),
    {
        self.set.insert(pair);
    }

    /// `hashbrown::HashSet::remove`: the pair is out of the set afterwards; the
    /// result says whether it was there.
    #[verifier::external_body]
    pub(crate) fn remove(&mut self, pair: (u64, u64)) -> (present: bool)
        ensures
            pair_set_contents(*final(self)) == pair_set_contents(*old(self)).remove(pair),
            present == pair_set_contents(*old(self)).contains(pair),
    {
        self.set.remove(&pair)
    }

    /// `hashbrown::HashSet::iter`: every pair of the set exactly once, in no
    /// particular order.
    #[verifier::external_body]
    pub(crate) fn items(&self) -> (pairs: Vec<(u64, u64)>)
        ensures
            pairs@.no_duplicates(),
            pairs@.to_set() == pair_set_contents(*self),
    {
        self.set.iter().copied().collect()
    }

    /// Adds the pair if the set does not have it, and takes it away if it does.
    pub fn toggle(&mut self, pair: (u64, u64))
        ensures
            final(self)@ == toggled_pair(old(self)@, pair),
    {
        if !self.remove(pair) {
            self.insert(pair);
            assert(self@ =~= old(self)@.insert(pair));
        }
    }

    /// Toggles every pair of another set.
    pub fn toggle_all(&mut self, other: &PairSet)
        ensures
            final(self)@ == difference_of(old(self)@, other@),
    {
        let pairs = other.items();
        let ghost before = self@;
        let mut i: usize = 0;
        assert(difference_of(before, pairs@.take(0).to_set()) =~= before);
        while i < pairs.len()
            invariant
                i <= pairs@.len(),
                pairs@.no_duplicates(),
                self@ == difference_of(before, pairs@.take(i as int).to_set()),
            decreases pairs@.len() - i,
        {
            let pair = pairs[i];
            let ghost part = pairs@.take(i as int);
            proof {
                assert(pairs@.take(i as int + 1) =~= part.push(pair));
                part.lemma_push_to_set_commute(pair);
                assert(!part.contains(pair)) by {
                    if part.contains(pair) {
                        let k = part.index_of(pair);
                        assert(pairs@[k] == pairs@[i as int]);
                    }
                }
            }
            self.toggle(pair);
            assert(self@ =~= difference_of(before, part.to_set().insert(pair)));
            i += 1;
        }
        assert(pairs@.take(pairs@.len() as int) =~= pairs@);
    }

    /// A copy of the set.
    pub fn copy(&self) -> (copy: PairSet)
        ensures
            copy@ == self@,
    {
        let mut copy = PairSet::new();
        copy.toggle_all(self);
        assert(copy@ =~= self@);
        copy
    }
}

/// A set with one pair toggled.
pub open spec fn toggled_pair(set: Set<(u64, u64)>, pair: (u64, u64)) -> Set<(u64, u64)> {
    if set.contains(pair) {
        set.remove(pair)
    } else {
        set.insert(pair)
    }
}

/// The pairs that are in exactly one of two sets.
pub open spec fn difference_of(a: Set<(u64, u64)>, b: Set<(u64, u64)>) -> Set<(u64, u64)> {
    Set::new(|pair: (u64, u64)| a.contains(pair) != b.contains(pair))
}

/// A map from instance ids to positions in a table.
#[verifier::external_body]
pub struct IdMap {
    map: hashbrown::HashMap<u64, usize>,
}

/// The entries that a map holds.
pub uninterp spec fn id_map_contents(m: IdMap) -> Map<u64, usize>;

impl View for IdMap {
    type V = Map<u64, usize>;

    open spec fn view(&self) -> Map<u64, usize> {
        id_map_contents(*self)
    }
}

impl IdMap {
    /// `hashbrown::HashMap::new`: the new map is empty.
    #[verifier::external_body]
    pub(crate) fn new() -> (m: IdMap)
        ensures
            (id_map_contents(m) == Map::<u64, usize>::empty()),
    {
        IdMap { map: hashbrown::HashMap::new() }
    }

    /// `hashbrown::HashMap::get`: the position stored for the id, if any.
    #[verifier::external_body]
    pub(crate) fn get(&self, id: u64) -> (position: Option<usize>)
        ensures
            position == id_map_contents(*self).get(id),
    {
        self.map.get(&id).copied()
    }

    /// `hashbrown::HashMap::insert`: the id maps to the position afterwards; the
    /// result is what it mapped to before.
    #[verifier::external_body]
    pub(crate) fn insert(&mut self, id: u64, position: usize) -> (previous: Option<usize>)
        ensures
            id_map_contents(*final(self)) == id_map_contents(*old(self)).insert(id, position),
            previous == id_map_contents(*old(self)).get(id),
    {
        self.map.insert(id, position)
    }

    /// `hashbrown::HashMap::remove`: the id maps to nothing afterwards; the
    /// result is what it mapped to before.
    #[verifier::external_body]
    pub(crate) fn remove(&mut self, id: u64) -> (previous: Option<usize>)
        ensures
            id_map_contents(*final(self)) == id_map_contents(*old(self)).remove(id),
            previous == id_map_contents(*old(self)).get(id),
    {
        self.map.remove(&id)
    }

    /// The map of the listed entries; of two with the same id the later one counts.
    pub fn from_pairs(pairs: &Vec<(u64, usize)>) -> (m: IdMap)
        ensures
            m@ == entries_of(pairs@),
    {
        let mut m = IdMap::new();
        let mut i: usize = 0;
        assert(pairs@.take(0) =~= Seq::<(u64, usize)>::empty());
        while i < pairs.len()
            invariant
                i <= pairs@.len(),
                m@ == entries_of(pairs@.take(i as int)),
            decreases pairs@.len() - i,
        {
            m.insert(pairs[i].0, pairs[i].1);
            proof {
                assert(pairs@.take(i as int + 1).drop_last() =~= pairs@.take(i as int));
                assert(pairs@.take(i as int + 1).last() == pairs@[i as int]);
            }
            i += 1;
        }
        assert(pairs@.take(pairs@.len() as int) =~= pairs@);
        m
    }
}

/// The map that inserting entries one after the other makes.
pub open spec fn entries_of(pairs: Seq<(u64, usize)>) -> Map<u64, usize>
    decreases pairs.len(),
{
    if pairs.len() == 0 {
        Map::empty()
    } else {
        entries_of(pairs.drop_last()).insert(pairs.last().0, pairs.last().1)
    }
}

/// A map from `(gadget id, output port)` to the gadget connected there.
#[verifier::external_body]
pub struct PortMap {
    map: hashbrown::HashMap<(u64, u64), u64>,
}

/// The connections that a map holds.
pub uninterp spec fn port_map_contents(m: PortMap) -> Map<(u64, u64), u64>;

impl View for PortMap {
    type V = Map<(u64, u64), u64>;

    open spec fn view(&self) -> Map<(u64, u64), u64> {
        port_map_contents(*self)
    }
}

impl PortMap {
    /// `hashbrown::HashMap::new`: the new map is empty.
    #[verifier::external_body]
    pub(crate) fn new() -> (m: PortMap)
        ensures
            (port_map_contents(m) == Map::<(u64, u64), u64>::empty()),
    {
        PortMap { map: hashbrown::HashMap::new() }
    }

    /// `hashbrown::HashMap::get`: the gadget stored for the port, if any.
    #[verifier::external_body]
    pub(crate) fn get(&self, gid: u64, port: u64) -> (peer: Option<u64>)
        ensures
            peer == port_map_contents(*self).get((gid, port)),
    {
        self.map.get(&(gid, port)).copied()
    }

    /// `hashbrown::HashMap::insert`: the port maps to the gadget afterwards.
    #[verifier::external_body]
    pub(crate) fn insert(&mut self, gid: u64, port: u64, peer: u64)
        ensures
            port_map_contents(*final(self)) == port_map_contents(*old(self)).insert((gid, port), peer),
    {
        self.map.insert((gid, port), peer);
    }
}

/// A map from word sequences to numbers.
#[verifier::external_body]
pub struct WordMap {
    map: hashbrown::HashMap<Vec<u64>, u64>,
}

/// The entries that a map holds.
pub uninterp spec fn word_map_contents(m: WordMap) -> Map<Seq<u64>, u64>;

impl View for WordMap {
    type V = Map<Seq<u64>, u64>;

    open spec fn view(&self) -> Map<Seq<u64>, u64> {
        word_map_contents(*self)
    }
}

impl WordMap {
    /// `hashbrown::HashMap::new`: the new map is empty.
    #[verifier::external_body]
    pub(crate) fn new() -> (m: WordMap)
        ensures
            (word_map_contents(m) == Map::<Seq<u64>, u64>::empty()),
    {
        WordMap { map: hashbrown::HashMap::new() }
    }

    /// `hashbrown::HashMap::get`: the number stored for the words, if any.
    #[verifier::external_body]
    pub(crate) fn get(&self, key: &Vec<u64>) -> (value: Option<u64>)
        ensures
            value == word_map_contents(*self).get(key@),
    {
        self.map.get(key).copied()
    }

    /// `hashbrown::HashMap::insert`: the words map to the number afterwards.
    #[verifier::external_body]
    pub(crate) fn insert(&mut self, key: Vec<u64>, value: u64)
        ensures
            word_map_contents(*final(self)) == word_map_contents(*old(self)).insert(key@, value),
    {
        self.map.insert(key, value);
    }
}

} // verus!
