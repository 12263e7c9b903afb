//! Tables of instances, found by id.
use crate::collections::IdMap;
use vstd::prelude::*;

verus! {

/// A map from ids to values: a hash map finds the row of an id in a table.
pub struct Registry<V> {
    index: IdMap,
    ids: Vec<u64>,
    rows: Vec<V>,
}

impl<V> Registry<V> {
    /// Every row is found under its id, and under no other.
    pub closed spec fn wf(&self) -> bool {
        &&& self.ids@.len() == self.rows@.len()
        &&& forall|i: int| 0 <= i < self.ids@.len() ==> #[trigger] self.index@.contains_key(self.ids@[i])
        &&& forall|i: int| 0 <= i < self.ids@.len() ==> self.index@[#[trigger] self.ids@[i]] == i
        &&& forall|id: u64| #[trigger] self.index@.contains_key(id) ==> {
            &&& self.index@[id] < self.ids@.len()
            &&& self.ids@[self.index@[id] as int] == id
        }
    }

    /// The values by id.
    pub closed spec fn view(&self) -> Map<u64, V> {
        Map::new(|id: u64| self.index@.contains_key(id), |id: u64| self.rows@[self.index@[id] as int])
    }

    /// The ids, in the order of the table.
    pub closed spec fn id_seq(&self) -> Seq<u64> {
        self.ids@
    }

    /// The ids of the table are those of the map, each once.
    pub proof fn lemma_id_seq(&self)
        requires
            self.wf(),
        ensures
            self.id_seq().no_duplicates(),
            forall|id: u64| #[trigger] self.id_seq().contains(id) <==> self@.contains_key(id),
            self.id_seq().to_set() == self@.dom(),
            self@.dom().finite(),
            self@.dom().len() == self.id_seq().len(),
    {
        assert forall|i: int, j: int| 0 <= i < j < self.ids@.len() implies self.ids@[i] != self.ids@[j] by {
            assert(self.index@[self.ids@[i]] == i);
            assert(self.index@[self.ids@[j]] == j);
        }
        assert forall|id: u64| #[trigger] self.ids@.contains(id) <==> self@.contains_key(id) by {
            if self@.contains_key(id) {
                assert(self.ids@[self.index@[id] as int] == id);
            }
        }
        assert(self.ids@.to_set() =~= self@.dom());
        vstd::seq_lib::seq_to_set_is_finite(self.ids@);
        self.ids@.unique_seq_to_set();
    }

    /// The empty table.
    pub fn new() -> (r: Registry<V>)
        ensures
            r.wf(),
            r@ == Map::<u64, V>::empty(),
            r.id_seq() == Seq::<u64>::empty(),
    {
        let r = Registry { index: IdMap::new(), ids: Vec::new(), rows: Vec::new() };
        assert(r@ =~= Map::<u64, V>::empty());
        r
    }

    /// How many values the table holds.
    pub fn len(&self) -> (n: usize)
        requires
            self.wf(),
        ensures
            n == self@.dom().len(),
            n == self.id_seq().len(),
    {
        proof {
            self.lemma_id_seq();
        }
        self.ids.len()
    }

    /// The id in the given row.
    pub fn id_at(&self, row: usize) -> (id: u64)
        requires
            self.wf(),
            row < self.id_seq().len(),
        ensures
            id == self.id_seq()[row as int],
            self@.contains_key(id),
    {
        assert(self.index@.contains_key(self.ids@[row as int]));
        self.ids[row]
    }

    /// Whether the table holds a value under the id.
    pub fn contains_key(&self, id: u64) -> (found: bool)
        ensures
            found == self@.contains_key(id),
    {
        self.index.get(id).is_some()
    }

    /// The value under the id.
    pub fn get(&self, id: u64) -> (value: Option<&V>)
        requires
            self.wf(),
        ensures
            value is Some == self@.contains_key(id),
            value matches Some(v) ==> *v == self@[id],
    {
        match self.index.get(id) {
            Some(row) => {
                assert(self.index@.contains_key(id));
                Some(&self.rows[row])
            },
            None => None,
        }
    }

    /// The value under the id, for writing.
    pub fn get_mut(&mut self, id: u64) -> (value: &mut V)
        requires
            old(self).wf(),
            old(self)@.contains_key(id),
        ensures
            *value == old(self)@[id],
            final(self).wf(),
            final(self)@ =~= old(self)@.insert(id, *final(value)),
            final(self).id_seq() == old(self).id_seq(),
    {
        let row: usize = self.index.get(id).unwrap();
        assert(self.index@.contains_key(id));
        assert forall|other: u64| self.index@.contains_key(other) && other != id implies self.index@[other] != row by {
        }
        &mut self.rows[row]
    }

    /// Stores a value under the id, in place of the one before.
    pub fn insert(&mut self, id: u64, value: V)
        requires
            old(self).wf(),
        ensures
            final(self).wf(),
            final(self)@ == old(self)@.insert(id, value),
            final(self).id_seq() == (if old(self)@.contains_key(id) {
                old(self).id_seq()
            } else {
                old(self).id_seq().push(id)
            }),
    {
        match self.index.get(id) {
            Some(row) => {
                assert(self.index@.contains_key(id));
                self.rows.set(row, value);
            },
            None => {
                self.index.insert(id, self.ids.len());
                self.ids.push(id);
                self.rows.push(value);
                assert forall|i: int| 0 <= i < self.ids@.len() implies #[trigger] self.index@.contains_key(self.ids@[i]) by {
                    if i < old(self).ids@.len() {
                        assert(old(self).index@.contains_key(old(self).ids@[i]));
                    }
                }
                assert forall|i: int| 0 <= i < self.ids@.len() implies self.index@[#[trigger] self.ids@[i]] == i by {
                    if i < old(self).ids@.len() {
                        assert(old(self).index@.contains_key(old(self).ids@[i]));
                        assert(old(self).index@[old(self).ids@[i]] == i);
                    }
                }
            },
        }
        assert(self@ =~= old(self)@.insert(id, value));
    }

    /// Takes the value under the id out of the table.
    pub fn remove(&mut self, id: u64) -> (value: Option<V>)
        requires
            old(self).wf(),
        ensures
            final(self).wf(),
            final(self)@ == old(self)@.remove(id),
            value is Some == old(self)@.contains_key(id),
            value matches Some(v) ==> v == old(self)@[id],
    {
        match self.index.get(id) {
            Some(row) => {
                assert(self.index@.contains_key(id));
                let last: usize = self.ids.len() - 1;
                let moved: u64 = self.ids[last];
                assert(self.index@.contains_key(self.ids@[last as int]));
                self.index.insert(moved, row);
                self.index.remove(id);
                self.ids.swap_remove(row);
                let value = self.rows.swap_remove(row);
                proof {
                    let o = *old(self);
                    assert forall|i: int| 0 <= i < self.ids@.len() implies #[trigger] self.index@.contains_key(self.ids@[i]) && self.index@[self.ids@[i]] == i by {
                        let at = if i == row {
                            last as int
                        } else {
                            i
                        };
                        assert(self.ids@[i] == o.ids@[at]);
                        assert(o.index@.contains_key(o.ids@[at]));
                        assert(o.index@[o.ids@[at]] == at);
                        assert(o.index@[moved] == last);
                        assert(o.index@[id] == row);
                    }
                    assert forall|k: u64| #[trigger] self.index@.contains_key(k) implies self.index@[k] < self.ids@.len() && self.ids@[self.index@[k] as int] == k && self.rows@[self.index@[k] as int] == o.rows@[o.index@[k] as int] by {
                        assert(o.index@.contains_key(k));
                        assert(o.index@[moved] == last);
                    }
                    assert(self@ =~= o@.remove(id));
                }
                Some(value)
            },
            None => {
                assert(self@ =~= old(self)@.remove(id));
                None
            },
        }
    }
}

} // verus!
