//! Windows of a program, numbered from zero: the gadgets, check models and error
//! models of a window in a fixed order, and the maps between local and global ids.
use crate::bin::Connector;
use crate::collections::{IdMap, IdSet};
use vstd::prelude::*;

verus! {

/// A check model of a window.
#[derive(Debug, Clone, PartialEq, Eq)]
pub struct ExpandedCheckModel {
    pub cid: u64,
    pub ctype: u64,
    pub remote_gadgets: Vec<Option<u64>>,
    pub count_checks: usize,
}

/// An error model of a window.
#[derive(Debug, Clone, PartialEq, Eq)]
pub struct ExpandedErrorModel {
    pub eid: u64,
    pub etype: u64,
    /// the check model that each slot stands for; none outside the window
    pub remote_check_models: Vec<Option<u64>>,
}

/// A gadget of a window. A gadget without a check model contributes errors only, one
/// without error models checks only.
#[derive(Debug, Clone, PartialEq, Eq)]
pub struct ExpandedGadget {
    pub gid: u64,
    pub gtype: u64,
    pub inputs: Vec<Option<Connector>>,
    pub outputs: Vec<Option<Connector>>,
    pub check_model: Option<ExpandedCheckModel>,
    pub error_models: Vec<ExpandedErrorModel>,
}

/// The gadget ids of a window.
pub open spec fn gids_of(g: Seq<ExpandedGadget>) -> Seq<u64> {
    g.map_values(|e: ExpandedGadget| e.gid)
}

/// The check model ids of a window.
pub open spec fn cids_of(g: Seq<ExpandedGadget>) -> Seq<u64>
    decreases g.len(),
{
    if g.len() == 0 {
        Seq::empty()
    } else {
        match g.last().check_model {
            Some(cm) => cids_of(g.drop_last()).push(cm.cid),
            None => cids_of(g.drop_last()),
        }
    }
}

/// How many checks a window has.
pub open spec fn checks_of(g: Seq<ExpandedGadget>) -> int
    decreases g.len(),
{
    if g.len() == 0 {
        0
    } else {
        checks_of(g.drop_last()) + (match g.last().check_model {
            Some(cm) => cm.count_checks as int,
            None => 0,
        })
    }
}

/// The index of the first check of each check model.
pub open spec fn starts_of(g: Seq<ExpandedGadget>) -> Seq<usize>
    decreases g.len(),
{
    if g.len() == 0 {
        Seq::empty()
    } else {
        match g.last().check_model {
            Some(cm) => starts_of(g.drop_last()).push(checks_of(g.drop_last()) as usize),
            None => starts_of(g.drop_last()),
        }
    }
}

/// The error model ids of one gadget.
pub open spec fn own_eids(g: ExpandedGadget) -> Seq<u64> {
    g.error_models@.map_values(|e: ExpandedErrorModel| e.eid)
}

/// The error model ids of a window.
pub open spec fn eids_of(g: Seq<ExpandedGadget>) -> Seq<u64>
    decreases g.len(),
{
    if g.len() == 0 {
        Seq::empty()
    } else {
        eids_of(g.drop_last()) + own_eids(g.last())
    }
}

/// The local gadget that owns each error model.
pub open spec fn owners_of(g: Seq<ExpandedGadget>) -> Seq<usize>
    decreases g.len(),
{
    if g.len() == 0 {
        Seq::empty()
    } else {
        owners_of(g.drop_last()) + Seq::new(g.last().error_models@.len(), |i: int| (g.len() - 1) as usize)
    }
}

/// A map finds the position of every listed id, and of no other.
pub open spec fn indexes(map: Map<u64, usize>, ids: Seq<u64>) -> bool {
    &&& forall|i: int| 0 <= i < ids.len() ==> #[trigger] map.contains_key(ids[i]) && map[ids[i]] == i
    &&& forall|id: u64| #[trigger] map.contains_key(id) ==> map[id] < ids.len() && ids[map[id] as int] == id
}

/// The maps between the local and the global ids of a window.
pub struct RelativeMapping {
    pub global_gid_of: Vec<u64>,
    pub global_cid_of: Vec<u64>,
    pub global_eid_of: Vec<u64>,
    pub local_gid_of: IdMap,
    pub local_cid_of: IdMap,
    pub local_eid_of: IdMap,
    /// the index of the first check of each local check model
    pub start_indices: Vec<usize>,
    /// the local gadget that owns each local error model
    pub local_gid_of_local_eid: Vec<usize>,
    /// how many error models stand before those of each local gadget
    pub local_eid_bias: Vec<usize>,
    pub count_checks: usize,
}

impl RelativeMapping {
    /// The mapping numbers the given window.
    pub open spec fn numbers(&self, g: Seq<ExpandedGadget>) -> bool {
        &&& self.global_gid_of@ == gids_of(g)
        &&& self.global_cid_of@ == cids_of(g)
        &&& self.global_eid_of@ == eids_of(g)
        &&& indexes(self.local_gid_of@, gids_of(g))
        &&& indexes(self.local_cid_of@, cids_of(g))
        &&& indexes(self.local_eid_of@, eids_of(g))
        &&& self.start_indices@ == starts_of(g)
        &&& self.local_gid_of_local_eid@ == owners_of(g)
        &&& self.local_eid_bias@ == Seq::new(g.len(), |i: int| eids_of(g.take(i)).len() as usize)
        &&& self.count_checks == checks_of(g)
    }

    /// A window can be numbered: no id occurs twice, and its checks can be counted.
    pub open spec fn numberable(g: Seq<ExpandedGadget>) -> bool {
        &&& gids_of(g).no_duplicates()
        &&& cids_of(g).no_duplicates()
        &&& eids_of(g).no_duplicates()
        &&& checks_of(g) <= usize::MAX
    }

    /// Numbers a window in the order of its gadgets, if it can be numbered.
    pub fn try_new(gadgets: &Vec<ExpandedGadget>) -> (mapping: Option<RelativeMapping>)
        ensures
            mapping is Some == Self::numberable(gadgets@),
            mapping matches Some(m) ==> m.numbers(gadgets@),
    {
        let mut gids: Vec<u64> = Vec::new();
        let mut cids: Vec<u64> = Vec::new();
        let mut eids: Vec<u64> = Vec::new();
        let mut checks: usize = 0;
        let mut n: usize = 0;
        assert(gadgets@.take(0) =~= Seq::<ExpandedGadget>::empty());
        while n < gadgets.len()
            invariant
                n <= gadgets@.len(),
                gids@ =~= gids_of(gadgets@).take(n as int),
                cids@ == cids_of(gadgets@.take(n as int)),
                eids@ == eids_of(gadgets@.take(n as int)),
                checks == checks_of(gadgets@.take(n as int)),
            decreases gadgets@.len() - n,
        {
            let gadget = &gadgets[n];
            let ghost part = gadgets@.take(n as int + 1);
            proof {
                assert(part.drop_last() =~= gadgets@.take(n as int));
                assert(part.last() == *gadget);
                lemma_checks_grow(gadgets@, n as int + 1, gadgets@.len() as int);
                assert(gadgets@.take(gadgets@.len() as int) =~= gadgets@);
            }
            gids.push(gadget.gid);
            if let Some(cm) = &gadget.check_model {
                cids.push(cm.cid);
                if cm.count_checks > usize::MAX - checks {
                    return None;
                }
                checks += cm.count_checks;
            }
            let ghost before = eids@;
            let mut k: usize = 0;
            while k < gadget.error_models.len()
                invariant
                    k <= gadget.error_models@.len(),
                    eids@ =~= before + own_eids(*gadget).take(k as int),
                decreases gadget.error_models@.len() - k,
            {
                eids.push(gadget.error_models[k].eid);
                k += 1;
            }
            assert(eids@ =~= before + own_eids(*gadget));
            n += 1;
        }
        proof {
            assert(gadgets@.take(gadgets@.len() as int) =~= gadgets@);
            assert(gids@ =~= gids_of(gadgets@));
            assert(eids.len() == eids_of(gadgets@).len());
        }
        if !all_distinct(&gids) || !all_distinct(&cids) || !all_distinct(&eids) {
            return None;
        }
        Some(RelativeMapping::new(gadgets))
    }

    /// Numbers a window in the order of its gadgets.
    pub fn new(gadgets: &Vec<ExpandedGadget>) -> (mapping: RelativeMapping)
        requires
            gids_of(gadgets@).no_duplicates(),
            cids_of(gadgets@).no_duplicates(),
            eids_of(gadgets@).no_duplicates(),
            checks_of(gadgets@) <= usize::MAX,
            eids_of(gadgets@).len() <= usize::MAX,
        ensures
            mapping.numbers(gadgets@),
    {
        let mut m = RelativeMapping::empty();
        let mut n: usize = 0;
        proof {
            assert(gadgets@.take(0) =~= Seq::<ExpandedGadget>::empty());
        }
        while n < gadgets.len()
            invariant
                n <= gadgets@.len(),
                gids_of(gadgets@).no_duplicates(),
                cids_of(gadgets@).no_duplicates(),
                eids_of(gadgets@).no_duplicates(),
                checks_of(gadgets@) <= usize::MAX,
                eids_of(gadgets@).len() <= usize::MAX,
                m.numbers(gadgets@.take(n as int)),
            decreases gadgets@.len() - n,
        {
            let ghost before = gadgets@.take(n as int);
            let ghost after = gadgets@.take(n as int + 1);
            proof {
                assert(after.drop_last() =~= before);
                assert(after.last() == gadgets@[n as int]);
                lemma_prefix(gadgets@, n as int + 1);
                assert(gids_of(after) =~= gids_of(before).push(gadgets@[n as int].gid));
                assert(gids_of(after) =~= gids_of(gadgets@).take(n as int + 1));
            }
            let gadget = &gadgets[n];
            let ghost m0 = m;
            m.local_gid_of.insert(gadget.gid, n);
            m.global_gid_of.push(gadget.gid);
            proof {
                lemma_indexes_push(m0.local_gid_of@, gids_of(before), gadget.gid);
                assert(gids_of(before).len() == n);
            }
            if let Some(cm) = &gadget.check_model {
                let local: usize = m.global_cid_of.len();
                proof {
                    lemma_indexes_push(m0.local_cid_of@, cids_of(before), cm.cid);
                }
                m.local_cid_of.insert(cm.cid, local);
                m.global_cid_of.push(cm.cid);
                m.start_indices.push(m.count_checks);
                m.count_checks = m.count_checks + cm.count_checks;
            }
            m.local_eid_bias.push(m.global_eid_of.len());
            let ghost m1 = m;
            let mut k: usize = 0;
            proof {
                assert(own_eids(*gadget).take(0) =~= Seq::<u64>::empty());
                assert(eids_of(before) + own_eids(*gadget).take(0) =~= eids_of(before));
                assert(owners_of(before) + Seq::new(0, |i: int| n) =~= owners_of(before));
            }
            while k < gadget.error_models.len()
                invariant
                    n < gadgets@.len(),
                    k <= gadget.error_models@.len(),
                    *gadget == gadgets@[n as int],
                    (eids_of(before) + own_eids(*gadget)).no_duplicates(),
                    (eids_of(before) + own_eids(*gadget)).len() <= usize::MAX,
                    m.global_gid_of == m1.global_gid_of,
                    m.global_cid_of == m1.global_cid_of,
                    m.local_gid_of == m1.local_gid_of,
                    m.local_cid_of == m1.local_cid_of,
                    m.start_indices == m1.start_indices,
                    m.local_eid_bias == m1.local_eid_bias,
                    m.count_checks == m1.count_checks,
                    m.global_eid_of@ == eids_of(before) + own_eids(*gadget).take(k as int),
                    indexes(m.local_eid_of@, eids_of(before) + own_eids(*gadget).take(k as int)),
                    m.local_gid_of_local_eid@ == owners_of(before) + Seq::new(k as nat, |i: int| n),
                decreases gadget.error_models@.len() - k,
            {
                let eid: u64 = gadget.error_models[k].eid;
                let local: usize = m.global_eid_of.len();
                let ghost ids = eids_of(before) + own_eids(*gadget).take(k as int);
                let ghost next = eids_of(before) + own_eids(*gadget).take(k as int + 1);
                proof {
                    assert(next =~= ids.push(eid));
                    assert(next =~= (eids_of(before) + own_eids(*gadget)).take(next.len() as int));
                    lemma_indexes_push(m.local_eid_of@, ids, eid);
                    assert(owners_of(before) + Seq::new((k + 1) as nat, |i: int| n) =~= (owners_of(before) + Seq::new(k as nat, |i: int| n)).push(n));
                }
                m.local_eid_of.insert(eid, local);
                m.global_eid_of.push(eid);
                m.local_gid_of_local_eid.push(n);
                k += 1;
            }
            proof {
                assert(own_eids(*gadget).take(k as int) =~= own_eids(*gadget));
                assert(owners_of(after) =~= owners_of(before) + Seq::new(k as nat, |i: int| n));
                assert forall|i: int| 0 <= i <= n implies #[trigger] after.take(i) =~= gadgets@.take(i) by {
                }
                assert forall|i: int| 0 <= i < n implies #[trigger] before.take(i) =~= gadgets@.take(i) by {
                }
                assert(m.local_eid_bias@ =~= Seq::new(after.len(), |i: int| eids_of(after.take(i)).len() as usize));
            }
            n += 1;
        }
        proof {
            assert(gadgets@.take(gadgets@.len() as int) =~= gadgets@);
        }
        m
    }

    /// The mapping of an empty window.
    pub fn empty() -> (m: RelativeMapping)
        ensures
            m.numbers(Seq::empty()),
    {
        let m = RelativeMapping {
            global_gid_of: Vec::new(),
            global_cid_of: Vec::new(),
            global_eid_of: Vec::new(),
            local_gid_of: IdMap::new(),
            local_cid_of: IdMap::new(),
            local_eid_of: IdMap::new(),
            start_indices: Vec::new(),
            local_gid_of_local_eid: Vec::new(),
            local_eid_bias: Vec::new(),
            count_checks: 0,
        };
        proof {
            assert(gids_of(Seq::empty()) =~= Seq::empty());
            assert(m.local_eid_bias@ =~= Seq::new(0, |i: int| eids_of(Seq::<ExpandedGadget>::empty().take(i)).len() as usize));
        }
        m
    }
}

proof fn lemma_indexes_push(map: Map<u64, usize>, ids: Seq<u64>, id: u64)
    requires
        indexes(map, ids),
        ids.push(id).no_duplicates(),
        ids.len() <= usize::MAX,
    ensures
        indexes(map.insert(id, ids.len() as usize), ids.push(id)),
{
    let after = ids.push(id);
    let map2 = map.insert(id, ids.len() as usize);
    assert forall|i: int| 0 <= i < after.len() implies #[trigger] map2.contains_key(after[i]) && map2[after[i]] == i by {
        if i < ids.len() {
            assert(after[i] != after[ids.len() as int]);
            assert(map.contains_key(ids[i]));
        }
    }
}

/// What a window numbers is a prefix of what a longer window numbers.
proof fn lemma_prefix(g: Seq<ExpandedGadget>, n: int)
    requires
        0 <= n <= g.len(),
        cids_of(g).no_duplicates(),
        eids_of(g).no_duplicates(),
        gids_of(g).no_duplicates(),
    ensures
        cids_of(g.take(n)).no_duplicates(),
        eids_of(g.take(n)).no_duplicates(),
        gids_of(g.take(n)).no_duplicates(),
        cids_of(g.take(n)).len() <= n,
        eids_of(g.take(n)).len() <= eids_of(g).len(),
        0 <= checks_of(g.take(n)) <= checks_of(g),
    decreases g.len() - n,
{
    if n < g.len() {
        lemma_prefix(g, n + 1);
        let t = g.take(n + 1);
        assert(t.drop_last() =~= g.take(n));
        let cids = cids_of(t);
        if let Some(cm) = t.last().check_model {
            assert(cids.drop_last() =~= cids_of(g.take(n)));
            assert forall|i: int, j: int| 0 <= i < j < cids_of(g.take(n)).len() implies cids_of(g.take(n))[i] != cids_of(g.take(n))[j] by {
                assert(cids[i] != cids[j]);
            }
        }
        let eids = eids_of(t);
        assert forall|i: int, j: int| 0 <= i < j < eids_of(g.take(n)).len() implies eids_of(g.take(n))[i] != eids_of(g.take(n))[j] by {
            assert(eids[i] == eids_of(g.take(n))[i]);
            assert(eids[j] == eids_of(g.take(n))[j]);
        }
        assert forall|i: int, j: int| 0 <= i < j < n implies gids_of(g.take(n))[i] != gids_of(g.take(n))[j] by {
            assert(gids_of(g)[i] == gids_of(g.take(n))[i]);
            assert(gids_of(g)[j] == gids_of(g.take(n))[j]);
        }
    } else {
        assert(g.take(n) =~= g);
    }
    lemma_checks_nonnegative(g.take(n));
    lemma_cids_len(g.take(n));
}

proof fn lemma_cids_len(g: Seq<ExpandedGadget>)
    ensures
        cids_of(g).len() <= g.len(),
        starts_of(g).len() == cids_of(g).len(),
    decreases g.len(),
{
    if g.len() > 0 {
        lemma_cids_len(g.drop_last());
    }
}

proof fn lemma_checks_nonnegative(g: Seq<ExpandedGadget>)
    ensures
        0 <= checks_of(g),
    decreases g.len(),
{
    if g.len() > 0 {
        lemma_checks_nonnegative(g.drop_last());
    }
}

/// The check models of a window start in order, the first one at zero, and none
/// starts after the end.
pub proof fn law_start_indices_increase(g: Seq<ExpandedGadget>)
    requires
        checks_of(g) <= usize::MAX,
    ensures
        starts_of(g).len() == cids_of(g).len(),
        starts_of(g).len() > 0 ==> starts_of(g)[0] == 0,
        forall|i: int, j: int| 0 <= i <= j < starts_of(g).len() ==> starts_of(g)[i] <= starts_of(g)[j],
        forall|i: int| 0 <= i < starts_of(g).len() ==> #[trigger] starts_of(g)[i] <= checks_of(g),
    decreases g.len(),
{
    if g.len() > 0 {
        lemma_checks_nonnegative(g.drop_last());
        law_start_indices_increase(g.drop_last());
        lemma_no_checks_before_first(g.drop_last());
    }
}

proof fn lemma_no_checks_before_first(g: Seq<ExpandedGadget>)
    ensures
        cids_of(g).len() == 0 ==> checks_of(g) == 0,
        starts_of(g).len() == cids_of(g).len(),
    decreases g.len(),
{
    if g.len() > 0 {
        lemma_no_checks_before_first(g.drop_last());
    }
}

/// The check model and the error models of a gadget are numbered by its window.
pub proof fn lemma_gadget_numbered(g: Seq<ExpandedGadget>, i: int)
    requires
        0 <= i < g.len(),
    ensures
        g[i].check_model matches Some(cm) ==> cids_of(g).contains(cm.cid),
        starts_of(g).len() == cids_of(g).len(),
        eids_of(g.take(i)).len() + g[i].error_models@.len() <= eids_of(g).len(),
    decreases g.len(),
{
    lemma_cids_len(g);
    if i == g.len() - 1 {
        assert(g.take(i) =~= g.drop_last());
        if let Some(cm) = g[i].check_model {
            assert(cids_of(g).last() == cm.cid);
            assert(cids_of(g)[cids_of(g).len() - 1] == cm.cid);
        }
    } else {
        lemma_gadget_numbered(g.drop_last(), i);
        assert(g.drop_last().take(i) =~= g.take(i));
        assert(g.drop_last()[i] == g[i]);
        if let Some(cm) = g[i].check_model {
            let k = choose|k: int| 0 <= k < cids_of(g.drop_last()).len() && cids_of(g.drop_last())[k] == cm.cid;
            assert(cids_of(g)[k] == cm.cid);
        }
    }
}

/// More gadgets have no fewer checks.
proof fn lemma_checks_grow(g: Seq<ExpandedGadget>, a: int, b: int)
    requires
        0 <= a <= b <= g.len(),
    ensures
        checks_of(g.take(a)) <= checks_of(g.take(b)),
    decreases b - a,
{
    if a < b {
        lemma_checks_grow(g, a, b - 1);
        assert(g.take(b).drop_last() =~= g.take(b - 1));
    }
}

/// Whether no id occurs twice.
fn all_distinct(ids: &Vec<u64>) -> (yes: bool)
    ensures
        yes == ids@.no_duplicates(),
{
    let mut seen = IdSet::new();
    let mut i: usize = 0;
    while i < ids.len()
        invariant
            i <= ids@.len(),
            forall|a: int, b: int| 0 <= a < b < i ==> ids@[a] != ids@[b],
            forall|id: u64| #[trigger] seen@.contains(id) <==> exists|k: int| 0 <= k < i && #[trigger] ids@[k] == id,
        decreases ids@.len() - i,
    {
        let ghost before = seen@;
        if !seen.insert(ids[i]) {
            proof {
                assert(before.contains(ids@[i as int]));
                let k = choose|k: int| 0 <= k < i && #[trigger] ids@[k] == ids@[i as int];
                assert(ids@[k] == ids@[i as int] && k != i);
            }
            return false;
        }
        proof {
            assert forall|a: int, b: int| 0 <= a < b < i + 1 implies ids@[a] != ids@[b] by {
                if b == i && ids@[a] == ids@[b] {
                    assert(exists|k: int| 0 <= k < i && #[trigger] ids@[k] == ids@[i as int]);
                }
            }
            assert forall|id: u64| #[trigger] seen@.contains(id) <==> exists|k: int| 0 <= k < i + 1 && #[trigger] ids@[k] == id by {
                if id == ids@[i as int] {
                    assert(ids@[i as int] == id);
                }
            }
        }
        i += 1;
    }
    true
}

/// A window numbers its check models in the order of their gadgets, its error models in
/// the order of their gadgets and within each, and counts the checks of all check models.
pub proof fn law_window_numbers_everything_in_order(g: Seq<ExpandedGadget>)
    ensures
        cids_of(g) == g.filter(|x: ExpandedGadget| x.check_model is Some).map_values(
            |x: ExpandedGadget| x.check_model->0.cid,
        ),
        eids_of(g) == g.map_values(
            |x: ExpandedGadget| x.error_models@.map_values(|e: ExpandedErrorModel| e.eid),
        ).flatten(),
        checks_of(g) == g.fold_left(
            0int,
            |n: int, x: ExpandedGadget|
                n + (match x.check_model {
                    Some(cm) => cm.count_checks as int,
                    None => 0int,
                }),
        ),
    decreases g.len(),
{
    reveal(Seq::filter);
    let checked = |x: ExpandedGadget| x.check_model is Some;
    let cid = |x: ExpandedGadget| x.check_model->0.cid;
    let eids = |x: ExpandedGadget| x.error_models@.map_values(|e: ExpandedErrorModel| e.eid);
    if g.len() > 0 {
        let (rest, x) = (g.drop_last(), g.last());
        law_window_numbers_everything_in_order(rest);
        rest.map_values(eids).lemma_flatten_push(eids(x));
        assert(g.map_values(eids) =~= rest.map_values(eids).push(eids(x)));
        assert(eids(x) =~= own_eids(x));
        if checked(x) {
            assert(g.filter(checked) == rest.filter(checked).push(x));
            assert(g.filter(checked).map_values(cid) =~= rest.filter(checked).map_values(cid).push(cid(x)));
        }
    } else {
        assert(g.map_values(eids) =~= Seq::<Seq<u64>>::empty());
        assert(g.filter(checked).map_values(cid) =~= Seq::<u64>::empty());
    }
}

/// The first vertex of a check model is the number of checks before it.
pub proof fn law_check_model_starts_after_those_before(g: Seq<ExpandedGadget>, i: int)
    requires
        0 <= i < g.len(),
        g[i].check_model is Some,
        checks_of(g) <= usize::MAX,
    ensures
        ({
            let position = g.take(i).filter(|x: ExpandedGadget| x.check_model is Some).len() as int;
            let before = g.take(i).fold_left(
                0int,
                |n: int, x: ExpandedGadget|
                    n + (match x.check_model {
                        Some(cm) => cm.count_checks as int,
                        None => 0int,
                    }),
            );
            &&& position < cids_of(g).len()
            &&& position < starts_of(g).len()
            &&& cids_of(g)[position] == g[i].check_model->0.cid
            &&& starts_of(g)[position] == before
            &&& before + g[i].check_model->0.count_checks <= checks_of(g)
        }),
{
    law_window_numbers_everything_in_order(g.take(i));
    lemma_check_model_placed(g, i, g.len() as int);
    assert(g.take(g.len() as int) =~= g);
}

proof fn lemma_check_model_placed(g: Seq<ExpandedGadget>, i: int, n: int)
    requires
        0 <= i < n <= g.len(),
        g[i].check_model is Some,
        checks_of(g) <= usize::MAX,
    ensures
        ({
            let position = cids_of(g.take(i)).len() as int;
            &&& position < cids_of(g.take(n)).len()
            &&& position < starts_of(g.take(n)).len()
            &&& cids_of(g.take(n))[position] == g[i].check_model->0.cid
            &&& starts_of(g.take(n))[position] == checks_of(g.take(i))
            &&& checks_of(g.take(i)) + g[i].check_model->0.count_checks <= checks_of(g.take(n))
        }),
    decreases n,
{
    assert(g.take(n).drop_last() =~= g.take(n - 1));
    assert(g.take(n).last() == g[n - 1]);
    lemma_cids_len(g.take(n - 1));
    lemma_checks_nonnegative(g.take(i));
    lemma_checks_grow(g, i, g.len() as int);
    assert(g.take(g.len() as int) =~= g);
    if i < n - 1 {
        lemma_check_model_placed(g, i, n - 1);
    }
}

/// Each error model is numbered after those of the gadgets before it and those before it in
/// its own gadget, and is owned by its gadget.
pub proof fn law_error_model_is_owned_by_its_gadget(m: RelativeMapping, g: Seq<ExpandedGadget>, i: int, k: int)
    requires
        m.numbers(g),
        0 <= i < g.len(),
        0 <= k < g[i].error_models@.len(),
        g.len() <= usize::MAX,
        eids_of(g).len() <= usize::MAX,
    ensures
        ({
            let e = m.local_eid_bias@[i] + k;
            &&& m.local_eid_bias@[i] == g.take(i).map_values(
                |x: ExpandedGadget| x.error_models@.map_values(|y: ExpandedErrorModel| y.eid),
            ).flatten().len()
            &&& e < m.global_eid_of@.len()
            &&& e < m.local_gid_of_local_eid@.len()
            &&& m.global_eid_of@[e] == g[i].error_models@[k].eid
            &&& m.local_eid_of@.contains_key(g[i].error_models@[k].eid)
            &&& m.local_eid_of@[g[i].error_models@[k].eid] == e
            &&& m.local_gid_of_local_eid@[e] == i
        }),
{
    law_window_numbers_everything_in_order(g.take(i));
    lemma_error_model_placed(g, i, k, g.len() as int);
    assert(g.take(g.len() as int) =~= g);
    let e = eids_of(g.take(i)).len() + k;
    assert(m.local_eid_of@.contains_key(eids_of(g)[e]));
}

proof fn lemma_error_model_placed(g: Seq<ExpandedGadget>, i: int, k: int, n: int)
    requires
        0 <= i < n <= g.len(),
        0 <= k < g[i].error_models@.len(),
        g.len() <= usize::MAX,
    ensures
        ({
            let e = eids_of(g.take(i)).len() + k;
            &&& eids_of(g.take(i)).len() <= eids_of(g.take(n)).len()
            &&& e < eids_of(g.take(n)).len()
            &&& owners_of(g.take(n)).len() == eids_of(g.take(n)).len()
            &&& eids_of(g.take(n))[e] == g[i].error_models@[k].eid
            &&& owners_of(g.take(n))[e] == i
        }),
    decreases n,
{
    assert(g.take(n).drop_last() =~= g.take(n - 1));
    assert(g.take(n).last() == g[n - 1]);
    lemma_owners_len(g.take(n - 1));
    if i < n - 1 {
        lemma_error_model_placed(g, i, k, n - 1);
    }
}

proof fn lemma_owners_len(g: Seq<ExpandedGadget>)
    ensures
        owners_of(g).len() == eids_of(g).len(),
    decreases g.len(),
{
    if g.len() > 0 {
        lemma_owners_len(g.drop_last());
    }
}

/// Local and global ids of gadgets and check models name each other.
pub proof fn law_local_ids_name_global_ids(m: RelativeMapping, g: Seq<ExpandedGadget>, i: int)
    requires
        m.numbers(g),
        0 <= i < g.len(),
    ensures
        m.global_gid_of@.len() == g.len(),
        m.global_gid_of@[i] == g[i].gid,
        m.local_gid_of@.contains_key(g[i].gid) && m.local_gid_of@[g[i].gid] == i,
        g[i].check_model is Some ==> {
            let cid = g[i].check_model->0.cid;
            m.local_cid_of@.contains_key(cid) && m.global_cid_of@[m.local_cid_of@[cid] as int] == cid
        },
{
    assert(gids_of(g)[i] == g[i].gid);
    assert(m.local_gid_of@.contains_key(gids_of(g)[i]));
    lemma_gadget_numbered(g, i);
    if let Some(cm) = g[i].check_model {
        let c = cids_of(g).index_of(cm.cid);
        assert(m.local_cid_of@.contains_key(cids_of(g)[c]));
    }
}

/// A window can be numbered exactly if no gadget, check model or error model is in it twice
/// and the checks of all its check models can be counted.
pub proof fn law_window_of_distinct_ids_is_numberable(g: Seq<ExpandedGadget>)
    ensures
        RelativeMapping::numberable(g) <==> {
            &&& g.map_values(|x: ExpandedGadget| x.gid).no_duplicates()
            &&& g.filter(|x: ExpandedGadget| x.check_model is Some).map_values(
                |x: ExpandedGadget| x.check_model->0.cid,
            ).no_duplicates()
            &&& g.map_values(
                |x: ExpandedGadget| x.error_models@.map_values(|e: ExpandedErrorModel| e.eid),
            ).flatten().no_duplicates()
            &&& g.fold_left(
                0int,
                |n: int, x: ExpandedGadget|
                    n + (match x.check_model {
                        Some(cm) => cm.count_checks as int,
                        None => 0int,
                    }),
            ) <= usize::MAX
        },
{
    law_window_numbers_everything_in_order(g);
    assert(gids_of(g) =~= g.map_values(|x: ExpandedGadget| x.gid));
}

} // verus!
