//! Connected parts of a program.
use crate::collections::IdSet;
use crate::network::{CheckModel, ErrorModel, Gadget};
use crate::order::strictly_increasing;
use crate::registry::Registry;
use vstd::prelude::*;

verus! {

/// Every output of a gadget is connected.
pub open spec fn closed(gadget: Gadget) -> bool {
    forall|i: int| 0 <= i < gadget.outputs@.len() ==> #[trigger] gadget.outputs@[i] is Some
}

/// Consecutive gadgets are connected.
pub open spec fn is_path(gadgets: Map<u64, Gadget>, path: Seq<u64>) -> bool {
    &&& path.len() > 0
    &&& forall|i: int|
        0 <= i < path.len() - 1 ==> gadgets.contains_key(#[trigger] path[i]) && gadgets[path[i]].has_peer(path[i + 1])
}

/// There is a path from one gadget to another.
pub open spec fn reachable(gadgets: Map<u64, Gadget>, from: u64, to: u64) -> bool {
    exists|path: Seq<u64>| #[trigger] is_path(gadgets, path) && path[0] == from && path.last() == to
}

/// Every gadget that can be reached exists and has all outputs connected.
pub open spec fn all_closed(gadgets: Map<u64, Gadget>, from: u64) -> bool {
    forall|gid: u64| #[trigger] reachable(gadgets, from, gid) ==> gadgets.contains_key(gid) && closed(gadgets[gid])
}

/// A gadget is reached from itself, and from whatever reaches a peer of it.
pub proof fn lemma_reachable_step(gadgets: Map<u64, Gadget>, from: u64, via: u64, to: u64)
    requires
        reachable(gadgets, from, via),
        gadgets.contains_key(via),
        gadgets[via].has_peer(to),
    ensures
        reachable(gadgets, from, to),
{
    let path = choose|path: Seq<u64>| #[trigger] is_path(gadgets, path) && path[0] == from && path.last() == via;
    let longer = path.push(to);
    assert forall|i: int| 0 <= i < longer.len() - 1 implies gadgets.contains_key(#[trigger] longer[i])
        && gadgets[longer[i]].has_peer(longer[i + 1]) by {
        if i < path.len() - 1 {
            assert(gadgets.contains_key(path[i]));
            assert(longer[i + 1] == path[i + 1]);
        } else {
            assert(longer[i] == via);
        }
    }
    assert(is_path(gadgets, longer));
    assert(longer.last() == to);
}

/// A set that holds the start and every peer of its members holds all that can be
/// reached.
pub proof fn lemma_closed_under_peers(gadgets: Map<u64, Gadget>, from: u64, set: Set<u64>, path: Seq<u64>)
    requires
        set.contains(from),
        forall|g: u64, p: u64| set.contains(g) && gadgets.contains_key(g) && #[trigger] gadgets[g].has_peer(p) ==> set.contains(p),
        is_path(gadgets, path),
        path[0] == from,
    ensures
        set.contains(path.last()),
    decreases path.len(),
{
    if path.len() > 1 {
        let shorter = path.drop_last();
        assert forall|i: int| 0 <= i < shorter.len() - 1 implies gadgets.contains_key(#[trigger] shorter[i])
            && gadgets[shorter[i]].has_peer(shorter[i + 1]) by {
            assert(gadgets.contains_key(path[i]));
            assert(shorter[i + 1] == path[i + 1]);
        }
        lemma_closed_under_peers(gadgets, from, set, shorter);
        let i = path.len() - 2;
        assert(gadgets.contains_key(path[i]));
        assert(gadgets[path[i]].has_peer(path[i + 1]));
    }
}

/// The search has reached `set`; it still has to look at `stack` and is done with
/// `done`.
spec fn searching(gadgets: Map<u64, Gadget>, from: u64, set: Set<u64>, stack: Seq<u64>, done: Set<u64>) -> bool {
    &&& set.contains(from)
    &&& stack.no_duplicates()
    &&& forall|g: u64| #[trigger] set.contains(g) <==> done.contains(g) || stack.contains(g)
    &&& forall|g: u64| stack.contains(g) ==> !#[trigger] done.contains(g)
    &&& forall|g: u64| #[trigger] set.contains(g) ==> reachable(gadgets, from, g)
    &&& forall|g: u64| #[trigger] done.contains(g) ==> gadgets.contains_key(g) && closed(gadgets[g])
}

/// Every peer of the gadgets that are done was reached.
spec fn peers_reached(gadgets: Map<u64, Gadget>, set: Set<u64>, done: Set<u64>) -> bool {
    forall|g: u64, p: u64| done.contains(g) && #[trigger] gadgets[g].has_peer(p) ==> set.contains(p)
}

/// Adds a gadget to the search, unless it was reached before.
fn reach_gadget(set: &mut IdSet, stack: &mut Vec<u64>, gid: u64, Ghost(gadgets): Ghost<Map<u64, Gadget>>, Ghost(from): Ghost<u64>, Ghost(done): Ghost<Set<u64>>)
    requires
        searching(gadgets, from, old(set)@, old(stack)@, done),
        reachable(gadgets, from, gid),
    ensures
        searching(gadgets, from, final(set)@, final(stack)@, done),
        final(set)@ == old(set)@.insert(gid),
{
    let fresh = set.insert(gid);
    if fresh {
        let ghost before = stack@;
        stack.push(gid);
        proof {
            assert forall|g: u64| #[trigger] set@.contains(g) <==> done.contains(g) || stack@.contains(g) by {
                if before.contains(g) {
                    let k = before.index_of(g);
                    assert(stack@[k] == g);
                }
                if stack@.contains(g) {
                    let k = stack@.index_of(g);
                    if k < before.len() {
                        assert(before[k] == g);
                    }
                }
                if g == gid {
                    assert(stack@[before.len() as int] == gid);
                }
                assert(set@.contains(g) <==> old(set)@.contains(g) || g == gid);
            }
            assert(!before.contains(gid)) by {
                assert(!old(set)@.contains(gid));
            }
            assert forall|g: u64| stack@.contains(g) implies !#[trigger] done.contains(g) by {
                let k = stack@.index_of(g);
                if k < before.len() {
                    assert(before[k] == g);
                    assert(before.contains(g));
                } else {
                    assert(!old(set)@.contains(gid));
                }
            }
            assert forall|i: int, j: int| 0 <= i < stack@.len() && 0 <= j < stack@.len() && i != j implies stack@[i] != stack@[j] by {
                if i < before.len() && j < before.len() {
                    assert(before[i] != before[j]);
                } else if i < before.len() {
                    assert(before.contains(before[i]));
                } else {
                    assert(before.contains(before[j]));
                }
            }
        }
    } else {
        assert(set@ =~= old(set)@);
    }
}

/// Whether every output of a gadget is connected.
pub fn is_closed(gadget: &Gadget) -> (yes: bool)
    ensures
        yes == closed(*gadget),
{
    let mut i: usize = 0;
    while i < gadget.outputs.len()
        invariant
            i <= gadget.outputs@.len(),
            forall|k: int| 0 <= k < i ==> #[trigger] gadget.outputs@[k] is Some,
        decreases gadget.outputs@.len() - i,
    {
        if gadget.outputs[i].is_none() {
            assert(gadget.outputs@[i as int] is None);
            return false;
        }
        i += 1;
    }
    true
}

/// Adds the peers of a gadget to the search.
fn reach_peers(
    gadget: &Gadget,
    set: &mut IdSet,
    stack: &mut Vec<u64>,
    Ghost(gadgets): Ghost<Map<u64, Gadget>>,
    Ghost(from): Ghost<u64>,
    Ghost(current): Ghost<u64>,
    Ghost(done): Ghost<Set<u64>>,
)
    requires
        gadgets.contains_key(current),
        *gadget == gadgets[current],
        closed(*gadget),
        reachable(gadgets, from, current),
        searching(gadgets, from, old(set)@, old(stack)@, done),
    ensures
        searching(gadgets, from, final(set)@, final(stack)@, done),
        old(set)@.subset_of(final(set)@),
        forall|p: u64| #[trigger] gadget.has_peer(p) ==> final(set)@.contains(p),
{
    let ghost before = set@;
    let mut i: usize = 0;
    while i < gadget.outputs.len()
        invariant
            i <= gadget.outputs@.len(),
            gadgets.contains_key(current),
            *gadget == gadgets[current],
            closed(*gadget),
            reachable(gadgets, from, current),
            searching(gadgets, from, set@, stack@, done),
            before.subset_of(set@),
            forall|k: int| 0 <= k < i ==> set@.contains((#[trigger] gadget.outputs@[k])->0.gid),
        decreases gadget.outputs@.len() - i,
    {
        assert(gadget.outputs@[i as int] is Some);
        let peer: u64 = gadget.outputs[i].unwrap().gid;
        proof {
            lemma_reachable_step(gadgets, from, current, peer);
        }
        reach_gadget(set, stack, peer, Ghost(gadgets), Ghost(from), Ghost(done));
        i += 1;
    }
    let ghost with_outputs = set@;
    let mut i: usize = 0;
    while i < gadget.instance.connectors.len()
        invariant
            i <= gadget.instance.connectors@.len(),
            gadgets.contains_key(current),
            *gadget == gadgets[current],
            reachable(gadgets, from, current),
            searching(gadgets, from, set@, stack@, done),
            with_outputs.subset_of(set@),
            forall|k: int| 0 <= k < i ==> set@.contains((#[trigger] gadget.instance.connectors@[k]).gid),
        decreases gadget.instance.connectors@.len() - i,
    {
        let peer: u64 = gadget.instance.connectors[i].gid;
        proof {
            assert(gadget.instance.connectors@[i as int].gid == peer);
            lemma_reachable_step(gadgets, from, current, peer);
        }
        reach_gadget(set, stack, peer, Ghost(gadgets), Ghost(from), Ghost(done));
        i += 1;
    }
}

/// The gadgets that can be reached from `gid`; `None` if one of them does not exist or
/// has an output that is not connected.
pub fn get_subgraph(gadgets: &Registry<Gadget>, gid: u64) -> (subgraph: Option<IdSet>)
    requires
        gadgets.wf(),
    ensures
        subgraph is Some <==> all_closed(gadgets@, gid),
        subgraph matches Some(set) ==> forall|g: u64| #[trigger] set@.contains(g) <==> reachable(gadgets@, gid, g),
{
    let ghost map = gadgets@;
    let mut set = IdSet::new();
    let mut stack: Vec<u64> = Vec::new();
    let ghost mut done: Set<u64> = Set::empty();
    set.insert(gid);
    stack.push(gid);
    proof {
        lemma_search_starts(map, gid, set@, stack@);
        gadgets.lemma_id_seq();
    }
    while stack.len() > 0
        invariant
            gadgets.wf(),
            map == gadgets@,
            map.dom().finite(),
            done.finite(),
            searching(map, gid, set@, stack@, done),
            peers_reached(map, set@, done),
        decreases map.dom().len() - done.len(),
    {
        let current: u64 = stack[stack.len() - 1];
        let ghost whole = stack@;
        stack.pop();
        proof {
            assert(whole.contains(current));
            assert(set@.contains(current));
        }
        let Some(gadget) = gadgets.get(current) else {
            assert(reachable(map, gid, current));
            return None;
        };
        if !is_closed(gadget) {
            assert(reachable(map, gid, current));
            return None;
        }
        let ghost earlier = done;
        let ghost before = set@;
        proof {
            done = done.insert(current);
            lemma_popped(map, gid, set@, whole, stack@, earlier, current);
        }
        reach_peers(gadget, &mut set, &mut stack, Ghost(map), Ghost(gid), Ghost(current), Ghost(done));
        proof {
            assert(peers_reached(map, set@, done)) by {
                assert forall|g: u64, p: u64| done.contains(g) && #[trigger] map[g].has_peer(p) implies set@.contains(p) by {
                    if g != current {
                        assert(earlier.contains(g));
                        assert(before.contains(p));
                    }
                }
            }
            assert(done.subset_of(map.dom()));
            vstd::set_lib::lemma_len_subset(done, map.dom());
            assert(!earlier.contains(current));
            assert(done.len() == earlier.len() + 1);
        }
    }
    proof {
        lemma_search_ends(map, gid, set@, stack@, done);
    }
    Some(set)
}

/// The search starts with the start.
proof fn lemma_search_starts(gadgets: Map<u64, Gadget>, from: u64, set: Set<u64>, stack: Seq<u64>)
    requires
        set == Set::<u64>::empty().insert(from),
        stack == Seq::<u64>::empty().push(from),
    ensures
        searching(gadgets, from, set, stack, Set::empty()),
{
    assert(stack[0] == from);
    let path = seq![from];
    assert(is_path(gadgets, path) && path[0] == from && path.last() == from);
    assert forall|g: u64| #[trigger] set.contains(g) <==> stack.contains(g) by {
        if stack.contains(g) {
            let k = stack.index_of(g);
            assert(k == 0);
        }
    }
}

/// A search with nothing left to look at has found what can be reached.
proof fn lemma_search_ends(gadgets: Map<u64, Gadget>, from: u64, set: Set<u64>, stack: Seq<u64>, done: Set<u64>)
    requires
        searching(gadgets, from, set, stack, done),
        peers_reached(gadgets, set, done),
        stack.len() == 0,
    ensures
        all_closed(gadgets, from),
        forall|g: u64| #[trigger] set.contains(g) <==> reachable(gadgets, from, g),
{
    assert forall|g: u64| set.contains(g) <==> done.contains(g) by {
        assert(!stack.contains(g));
    }
    assert forall|g: u64| #[trigger] set.contains(g) <==> reachable(gadgets, from, g) by {
        if reachable(gadgets, from, g) {
            let path = choose|path: Seq<u64>| #[trigger] is_path(gadgets, path) && path[0] == from && path.last() == g;
            assert forall|a: u64, p: u64| set.contains(a) && gadgets.contains_key(a) && #[trigger] gadgets[a].has_peer(p) implies set.contains(
                p,
            ) by {
                assert(done.contains(a));
            }
            lemma_closed_under_peers(gadgets, from, set, path);
        }
    }
    assert forall|g: u64| #[trigger] reachable(gadgets, from, g) implies gadgets.contains_key(g) && closed(gadgets[g]) by {
        assert(set.contains(g));
        assert(done.contains(g));
    }
}

/// The search after the gadget on top of the stack was looked at.
proof fn lemma_popped(
    gadgets: Map<u64, Gadget>,
    from: u64,
    set: Set<u64>,
    whole: Seq<u64>,
    rest: Seq<u64>,
    done: Set<u64>,
    current: u64,
)
    requires
        searching(gadgets, from, set, whole, done),
        whole.len() > 0,
        whole.last() == current,
        rest == whole.drop_last(),
        gadgets.contains_key(current),
        closed(gadgets[current]),
    ensures
        searching(gadgets, from, set, rest, done.insert(current)),
{
    let more = done.insert(current);
    assert forall|g: u64| #[trigger] set.contains(g) <==> more.contains(g) || rest.contains(g) by {
        if whole.contains(g) && g != current {
            let k = whole.index_of(g);
            assert(rest[k] == g);
        }
        if rest.contains(g) {
            let k = rest.index_of(g);
            assert(whole[k] == g);
        }
        assert(whole.contains(current));
        assert(set.contains(current));
    }
    assert forall|g: u64| rest.contains(g) implies !#[trigger] more.contains(g) by {
        let k = rest.index_of(g);
        assert(whole[k] == g);
        assert(whole.contains(g));
        assert(whole[k] != whole[whole.len() - 1]);
    }
    assert forall|i: int, j: int| 0 <= i < rest.len() && 0 <= j < rest.len() && i != j implies rest[i] != rest[j] by {
        assert(whole[i] != whole[j]);
    }
}

/// Whatever is reached from a gadget that is reached, is reached: a decode that starts
/// anywhere in a connected part takes all of it.
pub proof fn law_reachability_is_transitive(gadgets: Map<u64, Gadget>, a: u64, b: u64, c: u64)
    requires
        reachable(gadgets, a, b),
        reachable(gadgets, b, c),
    ensures
        reachable(gadgets, a, c),
{
    let tail = choose|path: Seq<u64>| #[trigger] is_path(gadgets, path) && path[0] == b && path.last() == c;
    lemma_reachable_extend(gadgets, a, b, tail);
}

/// A path goes on where another one ends.
proof fn lemma_reachable_extend(gadgets: Map<u64, Gadget>, from: u64, via: u64, path: Seq<u64>)
    requires
        reachable(gadgets, from, via),
        is_path(gadgets, path),
        path[0] == via,
    ensures
        reachable(gadgets, from, path.last()),
    decreases path.len(),
{
    if path.len() > 1 {
        let shorter = path.drop_last();
        assert forall|i: int| 0 <= i < shorter.len() - 1 implies gadgets.contains_key(#[trigger] shorter[i])
            && gadgets[shorter[i]].has_peer(shorter[i + 1]) by {
            assert(gadgets.contains_key(path[i]));
            assert(shorter[i + 1] == path[i + 1]);
        }
        lemma_reachable_extend(gadgets, from, via, shorter);
        let i = path.len() - 2;
        assert(gadgets.contains_key(path[i]));
        lemma_reachable_step(gadgets, from, path[i], path[i + 1]);
    }
}

// ---------------------------------------------------------------------------
// Taking a part out of the program
// ---------------------------------------------------------------------------

/// The check models bound to the listed gadgets.
pub open spec fn bound_cids(gadgets: Map<u64, Gadget>, gids: Seq<u64>) -> Seq<u64>
    decreases gids.len(),
{
    if gids.len() == 0 {
        Seq::empty()
    } else {
        let before = bound_cids(gadgets, gids.drop_last());
        match gadgets[gids.last()].binding_cid {
            Some(cid) => before.push(cid),
            None => before,
        }
    }
}

/// The error models attached to the listed check models.
pub open spec fn attached_eids(check_models: Map<u64, CheckModel>, cids: Seq<u64>) -> Seq<u64>
    decreases cids.len(),
{
    if cids.len() == 0 {
        Seq::empty()
    } else {
        attached_eids(check_models, cids.drop_last()) + check_models[cids.last()].attaching_eid_vec@
    }
}

/// Every listed id is in the table, and listed once.
pub open spec fn listed_once<V>(table: Map<u64, V>, ids: Seq<u64>) -> bool {
    &&& ids.no_duplicates()
    &&& forall|i: int| 0 <= i < ids.len() ==> table.contains_key(#[trigger] ids[i])
}

/// Whether every listed id is in the table, and listed once.
fn are_listed_once<V>(table: &Registry<V>, ids: &Vec<u64>) -> (yes: bool)
    ensures
        yes == listed_once(table@, ids@),
{
    let mut seen = IdSet::new();
    let mut i: usize = 0;
    proof {
        assert(ids@.take(0).to_set() =~= Set::<u64>::empty());
    }
    while i < ids.len()
        invariant
            i <= ids@.len(),
            seen@ == ids@.take(i as int).to_set(),
            ids@.take(i as int).no_duplicates(),
            forall|k: int| 0 <= k < i ==> table@.contains_key(#[trigger] ids@[k]),
        decreases ids@.len() - i,
    {
        let id: u64 = ids[i];
        let ghost before = ids@.take(i as int);
        if !table.contains_key(id) {
            assert(!table@.contains_key(ids@[i as int]));
            return false;
        }
        if !seen.insert(id) {
            assert(before.contains(id));
            let ghost k = before.index_of(id);
            assert(ids@[k] == ids@[i as int]);
            return false;
        }
        proof {
            assert(ids@.take(i as int + 1) =~= before.push(id));
            before.lemma_push_to_set_commute(id);
            assert(!before.contains(id));
            assert forall|a: int, b: int| 0 <= a < b < before.len() + 1 implies before.push(id)[a] != before.push(id)[b] by {
                if b == before.len() {
                    assert(before.contains(before[a]));
                }
            }
        }
        i += 1;
    }
    assert(ids@.take(ids@.len() as int) =~= ids@);
    true
}

/// Moves the listed values into a table of their own.
fn move_out<V>(table: &mut Registry<V>, ids: &Vec<u64>) -> (taken: Registry<V>)
    requires
        old(table).wf(),
        listed_once(old(table)@, ids@),
    ensures
        final(table).wf(),
        taken.wf(),
        taken@ == old(table)@.restrict(ids@.to_set()),
        final(table)@ == old(table)@.remove_keys(ids@.to_set()),
{
    let ghost before = table@;
    let mut taken: Registry<V> = Registry::new();
    let mut i: usize = 0;
    proof {
        assert(ids@.take(0).to_set() =~= Set::<u64>::empty());
        assert(taken@ =~= before.restrict(ids@.take(0).to_set()));
        assert(table@ =~= before.remove_keys(ids@.take(0).to_set()));
    }
    while i < ids.len()
        invariant
            i <= ids@.len(),
            table.wf(),
            taken.wf(),
            listed_once(before, ids@),
            taken@ == before.restrict(ids@.take(i as int).to_set()),
            table@ == before.remove_keys(ids@.take(i as int).to_set()),
        decreases ids@.len() - i,
    {
        let id: u64 = ids[i];
        let ghost moved = ids@.take(i as int);
        proof {
            assert(before.contains_key(ids@[i as int]));
            assert(!moved.to_set().contains(id)) by {
                if moved.contains(id) {
                    let k = moved.index_of(id);
                    assert(ids@[k] == ids@[i as int]);
                }
            }
        }
        if let Some(value) = table.remove(id) {
            taken.insert(id, value);
        }
        proof {
            assert(ids@.take(i as int + 1) =~= moved.push(id));
            moved.lemma_push_to_set_commute(id);
            assert(taken@ =~= before.restrict(moved.to_set().insert(id)));
            assert(table@ =~= before.remove_keys(moved.to_set().insert(id)));
        }
        i += 1;
    }
    assert(ids@.take(ids@.len() as int) =~= ids@);
    taken
}

/// A part that was taken out of the program.
pub struct TakenSubgraph {
    /// the gadgets in increasing order
    pub gids: Vec<u64>,
    pub gadgets: Registry<Gadget>,
    pub check_models: Registry<CheckModel>,
    pub error_models: Registry<ErrorModel>,
}

/// The listed gadgets are those that can be reached, and what belongs to them is there.
pub open spec fn is_subgraph(
    gadgets: Map<u64, Gadget>,
    check_models: Map<u64, CheckModel>,
    error_models: Map<u64, ErrorModel>,
    gid: u64,
    gids: Seq<u64>,
) -> bool {
    &&& all_closed(gadgets, gid)
    &&& strictly_increasing(gids)
    &&& forall|g: u64| #[trigger] gids.contains(g) <==> reachable(gadgets, gid, g)
    &&& listed_once(check_models, bound_cids(gadgets, gids))
    &&& listed_once(error_models, attached_eids(check_models, bound_cids(gadgets, gids)))
}

/// Collects the check models bound to the listed gadgets.
fn collect_cids(gadgets: &Registry<Gadget>, gids: &Vec<u64>) -> (cids: Vec<u64>)
    requires
        gadgets.wf(),
        forall|i: int| 0 <= i < gids@.len() ==> gadgets@.contains_key(#[trigger] gids@[i]),
    ensures
        cids@ == bound_cids(gadgets@, gids@),
{
    let mut cids: Vec<u64> = Vec::new();
    let mut i: usize = 0;
    assert(gids@.take(0) =~= Seq::<u64>::empty());
    while i < gids.len()
        invariant
            i <= gids@.len(),
            gadgets.wf(),
            forall|k: int| 0 <= k < gids@.len() ==> gadgets@.contains_key(#[trigger] gids@[k]),
            cids@ == bound_cids(gadgets@, gids@.take(i as int)),
        decreases gids@.len() - i,
    {
        let gadget = gadgets.get(gids[i]).unwrap();
        assert(gids@.take(i as int + 1).drop_last() =~= gids@.take(i as int));
        if let Some(cid) = gadget.binding_cid {
            cids.push(cid);
        }
        i += 1;
    }
    assert(gids@.take(gids@.len() as int) =~= gids@);
    cids
}

/// Collects the error models attached to the listed check models.
fn collect_eids(check_models: &Registry<CheckModel>, cids: &Vec<u64>) -> (eids: Vec<u64>)
    requires
        check_models.wf(),
        forall|i: int| 0 <= i < cids@.len() ==> check_models@.contains_key(#[trigger] cids@[i]),
    ensures
        eids@ == attached_eids(check_models@, cids@),
{
    let mut eids: Vec<u64> = Vec::new();
    let mut i: usize = 0;
    assert(cids@.take(0) =~= Seq::<u64>::empty());
    while i < cids.len()
        invariant
            i <= cids@.len(),
            check_models.wf(),
            forall|k: int| 0 <= k < cids@.len() ==> check_models@.contains_key(#[trigger] cids@[k]),
            eids@ == attached_eids(check_models@, cids@.take(i as int)),
        decreases cids@.len() - i,
    {
        let check_model = check_models.get(cids[i]).unwrap();
        let mut own = crate::bin::copy_vec(&check_model.attaching_eid_vec);
        assert(cids@.take(i as int + 1).drop_last() =~= cids@.take(i as int));
        eids.append(&mut own);
        i += 1;
    }
    assert(cids@.take(cids@.len() as int) =~= cids@);
    eids
}

/// Finds the part around a gadget: its gadgets in increasing order, their check models,
/// and the error models attached to these. `None` if an output in it is not connected or
/// something is missing.
pub fn find_part(
    gadgets: &Registry<Gadget>,
    check_models: &Registry<CheckModel>,
    error_models: &Registry<ErrorModel>,
    gid: u64,
) -> (found: Option<(Vec<u64>, Vec<u64>, Vec<u64>)>)
    requires
        gadgets.wf(),
        check_models.wf(),
        error_models.wf(),
    ensures
        found is Some <==> exists|gids: Seq<u64>| #[trigger] is_subgraph(gadgets@, check_models@, error_models@, gid, gids),
        found matches Some((gids, cids, eids)) ==> {
            &&& is_subgraph(gadgets@, check_models@, error_models@, gid, gids@)
            &&& forall|i: int| 0 <= i < gids@.len() ==> gadgets@.contains_key(#[trigger] gids@[i])
            &&& gids@.no_duplicates()
            &&& cids@ == bound_cids(gadgets@, gids@)
            &&& eids@ == attached_eids(check_models@, cids@)
            &&& forall|other: Seq<u64>| #[trigger]
                is_subgraph(gadgets@, check_models@, error_models@, gid, other) ==> other == gids@
        },
{
    let Some(set) = get_subgraph(gadgets, gid) else {
        return None;
    };
    let gids = set.sorted_ids();
    proof {
        assert forall|g: u64| #[trigger] gids@.contains(g) <==> reachable(gadgets@, gid, g) by {
            assert(gids@.to_set().contains(g) <==> set@.contains(g));
        }
        assert forall|i: int| 0 <= i < gids@.len() implies gadgets@.contains_key(#[trigger] gids@[i]) by {
            assert(gids@.contains(gids@[i]));
        }
        assert(gids@.no_duplicates());
        assert forall|other: Seq<u64>| #[trigger] is_subgraph(gadgets@, check_models@, error_models@, gid, other) implies other == gids@ by {
            assert(other.to_set() =~= gids@.to_set()) by {
                assert forall|g: u64| other.contains(g) <==> gids@.contains(g) by {
                }
            }
            crate::order::lemma_strictly_increasing_unique(other, gids@);
        }
    }
    let cids = collect_cids(gadgets, &gids);
    if !are_listed_once(check_models, &cids) {
        return None;
    }
    let eids = collect_eids(check_models, &cids);
    if !are_listed_once(error_models, &eids) {
        return None;
    }
    assert(is_subgraph(gadgets@, check_models@, error_models@, gid, gids@));
    Some((gids, cids, eids))
}

/// Takes the part around a gadget out of the program: the gadgets that can be reached,
/// their check models, and the error models attached to these. Nothing is taken, and
/// the result is `None`, if an output in it is not connected or something is missing.
pub fn take_subgraph(
    gadgets: &mut Registry<Gadget>,
    check_models: &mut Registry<CheckModel>,
    error_models: &mut Registry<ErrorModel>,
    gid: u64,
) -> (taken: Option<TakenSubgraph>)
    requires
        old(gadgets).wf(),
        old(check_models).wf(),
        old(error_models).wf(),
    ensures
        final(gadgets).wf(),
        final(check_models).wf(),
        final(error_models).wf(),
        taken is Some <==> exists|gids: Seq<u64>| #[trigger]
            is_subgraph(old(gadgets)@, old(check_models)@, old(error_models)@, gid, gids),
        taken is None ==> final(gadgets)@ == old(gadgets)@ && final(check_models)@ == old(check_models)@
            && final(error_models)@ == old(error_models)@,
        taken matches Some(part) ==> {
            let gids = part.gids@;
            let cids = bound_cids(old(gadgets)@, gids);
            let eids = attached_eids(old(check_models)@, cids);
            &&& is_subgraph(old(gadgets)@, old(check_models)@, old(error_models)@, gid, gids)
            &&& part.gadgets.wf()
            &&& part.check_models.wf()
            &&& part.error_models.wf()
            &&& part.gadgets@ == old(gadgets)@.restrict(gids.to_set())
            &&& part.check_models@ == old(check_models)@.restrict(cids.to_set())
            &&& part.error_models@ == old(error_models)@.restrict(eids.to_set())
            &&& final(gadgets)@ == old(gadgets)@.remove_keys(gids.to_set())
            &&& final(check_models)@ == old(check_models)@.remove_keys(cids.to_set())
            &&& final(error_models)@ == old(error_models)@.remove_keys(eids.to_set())
        },
{
    let Some((gids, cids, eids)) = find_part(gadgets, check_models, error_models, gid) else {
        return None;
    };
    let part_gadgets = move_out(gadgets, &gids);
    let part_check_models = move_out(check_models, &cids);
    let part_error_models = move_out(error_models, &eids);
    Some(
        TakenSubgraph {
            gids,
            gadgets: part_gadgets,
            check_models: part_check_models,
            error_models: part_error_models,
        },
    )
}

/// The check models of gadgets are those bound to them, in order, and the error models of
/// check models are those attached to them, in order.
pub proof fn law_subgraph_lists_bound_and_attached(
    gadgets: Map<u64, Gadget>,
    check_models: Map<u64, CheckModel>,
    gids: Seq<u64>,
    cids: Seq<u64>,
)
    ensures
        bound_cids(gadgets, gids) == gids.filter(|g: u64| gadgets[g].binding_cid is Some).map_values(
            |g: u64| gadgets[g].binding_cid->0,
        ),
        attached_eids(check_models, cids) == cids.map_values(|c: u64| check_models[c].attaching_eid_vec@).flatten(),
    decreases gids.len() + cids.len(),
{
    reveal(Seq::filter);
    let bound = |g: u64| gadgets[g].binding_cid is Some;
    let cid = |g: u64| gadgets[g].binding_cid->0;
    let eids = |c: u64| check_models[c].attaching_eid_vec@;
    if gids.len() > 0 {
        let (rest, g) = (gids.drop_last(), gids.last());
        law_subgraph_lists_bound_and_attached(gadgets, check_models, rest, cids);
        if bound(g) {
            assert(gids.filter(bound).map_values(cid) =~= rest.filter(bound).map_values(cid).push(cid(g)));
        }
    } else {
        assert(gids.filter(bound).map_values(cid) =~= Seq::<u64>::empty());
        if cids.len() > 0 {
            let rest = cids.drop_last();
            law_subgraph_lists_bound_and_attached(gadgets, check_models, gids, rest);
            rest.map_values(eids).lemma_flatten_push(eids(cids.last()));
            assert(cids.map_values(eids) =~= rest.map_values(eids).push(eids(cids.last())));
        } else {
            assert(cids.map_values(eids) =~= Seq::<Seq<u64>>::empty());
        }
    }
}

/// A subgraph is closed under connections: with a gadget it has every gadget connected to
/// an input or an output.
pub proof fn law_subgraph_has_all_peers(
    gadgets: Map<u64, Gadget>,
    check_models: Map<u64, CheckModel>,
    error_models: Map<u64, ErrorModel>,
    gid: u64,
    gids: Seq<u64>,
    g: u64,
    k: int,
)
    requires
        is_subgraph(gadgets, check_models, error_models, gid, gids),
        gids.contains(g),
        0 <= k,
    ensures
        gids.contains(gid),
        gadgets.contains_key(g),
        k < gadgets[g].instance.connectors@.len() ==> gids.contains(gadgets[g].instance.connectors@[k].gid),
        k < gadgets[g].outputs@.len() ==> gadgets[g].outputs@[k] is Some && gids.contains(gadgets[g].outputs@[k]->0.gid),
{
    let start = seq![gid];
    assert(is_path(gadgets, start) && start[0] == gid && start.last() == gid);
    assert(reachable(gadgets, gid, gid));
    assert(reachable(gadgets, gid, g));
    if k < gadgets[g].outputs@.len() {
        assert(gadgets[g].outputs@[k] is Some);
        let peer = gadgets[g].outputs@[k]->0.gid;
        assert(gadgets[g].has_peer(peer));
        lemma_one_further(gadgets, gid, g, peer);
    }
    if k < gadgets[g].instance.connectors@.len() {
        let peer = gadgets[g].instance.connectors@[k].gid;
        assert(gadgets[g].has_peer(peer));
        lemma_one_further(gadgets, gid, g, peer);
    }
}

proof fn lemma_one_further(gadgets: Map<u64, Gadget>, from: u64, g: u64, peer: u64)
    requires
        reachable(gadgets, from, g),
        gadgets.contains_key(g),
        gadgets[g].has_peer(peer),
    ensures
        reachable(gadgets, from, peer),
{
    let step = seq![g, peer];
    assert(is_path(gadgets, step)) by {
        assert forall|i: int| 0 <= i < step.len() - 1 implies gadgets.contains_key(#[trigger] step[i])
            && gadgets[step[i]].has_peer(step[i + 1]) by {
            assert(i == 0);
        }
    }
    assert(step[0] == g && step.last() == peer);
    assert(reachable(gadgets, g, peer));
    law_reachability_is_transitive(gadgets, from, g, peer);
}

/// A subgraph has nothing but what connections lead to: any set that has its first gadget
/// and is closed under connections has all of it.
pub proof fn law_subgraph_is_the_least_closed_set(
    gadgets: Map<u64, Gadget>,
    check_models: Map<u64, CheckModel>,
    error_models: Map<u64, ErrorModel>,
    gid: u64,
    gids: Seq<u64>,
    set: Set<u64>,
    g: u64,
)
    requires
        is_subgraph(gadgets, check_models, error_models, gid, gids),
        set.contains(gid),
        forall|a: u64, k: int|
            set.contains(a) && 0 <= k < gadgets[a].instance.connectors@.len() ==> set.contains(
                (#[trigger] gadgets[a].instance.connectors@[k]).gid,
            ),
        forall|a: u64, k: int|
            set.contains(a) && 0 <= k < gadgets[a].outputs@.len() && (#[trigger] gadgets[a].outputs@[k]) is Some
                ==> set.contains(gadgets[a].outputs@[k]->0.gid),
        gids.contains(g),
    ensures
        set.contains(g),
{
    assert(reachable(gadgets, gid, g));
    let path = choose|path: Seq<u64>| #[trigger] is_path(gadgets, path) && path[0] == gid && path.last() == g;
    lemma_path_stays(gadgets, set, path, path.len() - 1);
}

proof fn lemma_path_stays(gadgets: Map<u64, Gadget>, set: Set<u64>, path: Seq<u64>, n: int)
    requires
        is_path(gadgets, path),
        0 <= n < path.len(),
        set.contains(path[0]),
        forall|a: u64, k: int|
            set.contains(a) && 0 <= k < gadgets[a].instance.connectors@.len() ==> set.contains(
                (#[trigger] gadgets[a].instance.connectors@[k]).gid,
            ),
        forall|a: u64, k: int|
            set.contains(a) && 0 <= k < gadgets[a].outputs@.len() && (#[trigger] gadgets[a].outputs@[k]) is Some
                ==> set.contains(gadgets[a].outputs@[k]->0.gid),
    ensures
        set.contains(path[n]),
    decreases n,
{
    if n > 0 {
        lemma_path_stays(gadgets, set, path, n - 1);
        let (a, b) = (path[n - 1], path[n]);
        assert(gadgets[path[n - 1]].has_peer(path[n - 1 + 1]));
    }
}

} // verus!
