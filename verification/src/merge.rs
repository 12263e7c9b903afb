//! Merging of hyperedges with the same vertices, and removal of isolated vertices.
use crate::bin::copy_vec;
use crate::bit_vector::{get_bit, set_bit, zeros, BitVector};
use crate::collections::WordMap;
use crate::hypergraph::{window_edges_view, WindowEdge, WindowEdgeSpec};
use crate::order::{increasing, permutation_of, sort_ids};
use vstd::prelude::*;

verus! {

/// Hyperedges with the same vertices, as one.
#[derive(Debug)]
pub struct MergedEdge {
    /// the vertices, in increasing order
    pub vertices: Vec<u64>,
    /// the likeliest member, the first one among equals
    pub representative: usize,
    /// the hyperedges with these vertices, in order
    pub members: Vec<usize>,
}

/// The result of a merge.
#[derive(Debug)]
pub struct MergedEdges {
    pub edges: Vec<MergedEdge>,
    /// the merged hyperedge of each original one
    pub original_to_merged: Vec<usize>,
}

/// The member that stands for a merged hyperedge: the first one that no later one
/// exceeds in probability.
pub open spec fn best_member(edges: Seq<WindowEdgeSpec>, members: Seq<usize>) -> usize
    decreases members.len(),
{
    if members.len() <= 1 {
        members[0]
    } else {
        let best = best_member(edges, members.drop_last());
        if edges[members.last() as int].probability.above(edges[best as int].probability) {
            members.last()
        } else {
            best
        }
    }
}

/// A merged hyperedge of the first `n` hyperedges.
pub open spec fn is_group(edges: Seq<WindowEdgeSpec>, n: int, group: MergedEdge) -> bool {
    &&& group.members@.len() > 0
    &&& forall|i: int, j: int| 0 <= i < j < group.members@.len() ==> group.members@[i] < group.members@[j]
    &&& forall|i: int|
        0 <= i < group.members@.len() ==> (#[trigger] group.members@[i]) < n && permutation_of(
            group.vertices@,
            edges[group.members@[i] as int].vertices,
        )
    &&& increasing(group.vertices@)
    &&& group.representative == best_member(edges, group.members@)
}

/// The first `n` hyperedges, merged: every hyperedge is in the group of its vertices,
/// groups have different vertices, and are in the order of their first members.
pub open spec fn is_merge(edges: Seq<WindowEdgeSpec>, n: int, merged: MergedEdges) -> bool {
    &&& merged.original_to_merged@.len() == n
    &&& forall|k: int| 0 <= k < merged.edges@.len() ==> is_group(edges, n, #[trigger] merged.edges@[k])
    &&& forall|i: int|
        0 <= i < n ==> (#[trigger] merged.original_to_merged@[i]) < merged.edges@.len()
            && merged.edges@[merged.original_to_merged@[i] as int].members@.contains(i as usize)
    &&& forall|j: int, k: int|
        0 <= j < k < merged.edges@.len() ==> (#[trigger] merged.edges@[j]).vertices@ != (#[trigger] merged.edges@[k]).vertices@
            && merged.edges@[j].members@[0] < merged.edges@[k].members@[0]
}

/// The vertices of group `k` lead to it.
spec fn finds(found: Map<Seq<u64>, u64>, group: MergedEdge, k: int) -> bool {
    found.contains_key(group.vertices@) && found[group.vertices@] == k
}

/// Merges the hyperedges that have the same vertices.
pub fn merge_hyperedges(edges: &Vec<WindowEdge>) -> (merged: MergedEdges)
    ensures
        is_merge(window_edges_view(edges@), edges@.len() as int, merged),
{
    let ghost specs = window_edges_view(edges@);
    let mut merged = MergedEdges { edges: Vec::new(), original_to_merged: Vec::new() };
    let mut found = WordMap::new();
    let mut i: usize = 0;
    while i < edges.len()
        invariant
            i <= edges@.len(),
            specs == window_edges_view(edges@),
            is_merge(specs, i as int, merged),
            merged.edges@.len() <= i,
            forall|k: int| 0 <= k < merged.edges@.len() ==> finds(found@, #[trigger] merged.edges@[k], k),
            forall|key: Seq<u64>| #[trigger]
                found@.contains_key(key) ==> found@[key] < merged.edges@.len() && merged.edges@[found@[key] as int].vertices@
                    == key,
        decreases edges@.len() - i,
    {
        let mut vertices = copy_vec(&edges[i].vertices);
        sort_ids(&mut vertices);
        let ghost before = merged;
        let ghost seen = found@;
        assert(specs[i as int].vertices == edges@[i as int].vertices@);
        match found.get(&vertices) {
            Some(at) => {
                assert(found@.contains_key(vertices@));
                assert(at < merged.edges.len());
                let k: usize = at as usize;
                let ghost group = merged.edges@[k as int];
                assert(is_group(specs, i as int, group));
                assert(group.vertices@ == vertices@);
                let representative: usize = merged.edges[k].representative;
                proof {
                    lemma_best_is_member(specs, group.members@);
                }
                let better = edges[i].probability.is_above(&edges[representative].probability);
                merged.edges[k].members.push(i);
                if better {
                    merged.edges[k].representative = i;
                }
                merged.original_to_merged.push(k);
                proof {
                    let now = merged.edges@[k as int];
                    assert(now.members@.drop_last() =~= group.members@);
                    assert(is_group(specs, i as int + 1, now)) by {
                        assert forall|x: int| 0 <= x < now.members@.len() implies (#[trigger] now.members@[x]) < i + 1 && permutation_of(
                            now.vertices@,
                            specs[now.members@[x] as int].vertices,
                        ) by {
                            if x < group.members@.len() {
                                assert(group.members@[x] == now.members@[x]);
                            }
                        }
                    }
                    assert forall|j: int| 0 <= j < merged.edges@.len() implies is_group(specs, i as int + 1, #[trigger] merged.edges@[j]) by {
                        if j != k {
                            assert(merged.edges@[j] == before.edges@[j]);
                            assert(is_group(specs, i as int, before.edges@[j]));
                        }
                    }
                    assert forall|x: int| 0 <= x < i + 1 implies (#[trigger] merged.original_to_merged@[x]) < merged.edges@.len()
                        && merged.edges@[merged.original_to_merged@[x] as int].members@.contains(x as usize) by {
                        if x < i {
                            let at = before.original_to_merged@[x];
                            assert(merged.original_to_merged@[x] == at);
                            assert(before.edges@[at as int].members@.contains(x as usize));
                            let y = choose|y: int| 0 <= y < before.edges@[at as int].members@.len() && before.edges@[at as int].members@[y] == x as usize;
                            assert(merged.edges@[at as int].members@[y] == x as usize);
                        } else {
                            assert(now.members@[now.members@.len() - 1] == i);
                        }
                    }
                    assert forall|j: int, m: int| 0 <= j < m < merged.edges@.len() implies (#[trigger] merged.edges@[j]).vertices@ != (
                    #[trigger] merged.edges@[m]).vertices@ && merged.edges@[j].members@[0] < merged.edges@[m].members@[0] by {
                        assert(before.edges@[j].vertices@ != before.edges@[m].vertices@);
                        assert(is_group(specs, i as int, before.edges@[j]));
                        assert(is_group(specs, i as int, before.edges@[m]));
                    }
                    assert forall|j: int| 0 <= j < merged.edges@.len() implies finds(found@, #[trigger] merged.edges@[j], j) by {
                        assert(finds(seen, before.edges@[j], j));
                        assert(merged.edges@[j].vertices@ == before.edges@[j].vertices@);
                    }
                }
            },
            None => {
                let k: usize = merged.edges.len();
                let mut members: Vec<usize> = Vec::new();
                members.push(i);
                let key = copy_vec(&vertices);
                let fresh = MergedEdge { vertices, representative: i, members };
                merged.edges.push(fresh);
                merged.original_to_merged.push(k);
                found.insert(key, k as u64);
                proof {
                    assert(is_group(specs, i as int + 1, fresh));
                    assert forall|j: int| 0 <= j < merged.edges@.len() implies is_group(specs, i as int + 1, #[trigger] merged.edges@[j]) by {
                        if j < k {
                            assert(merged.edges@[j] == before.edges@[j]);
                            assert(is_group(specs, i as int, before.edges@[j]));
                        }
                    }
                    assert forall|x: int| 0 <= x < i + 1 implies (#[trigger] merged.original_to_merged@[x]) < merged.edges@.len()
                        && merged.edges@[merged.original_to_merged@[x] as int].members@.contains(x as usize) by {
                        if x < i {
                            assert(merged.original_to_merged@[x] == before.original_to_merged@[x]);
                        } else {
                            assert(fresh.members@[0] == i);
                        }
                    }
                    assert forall|j: int, m: int| 0 <= j < m < merged.edges@.len() implies (#[trigger] merged.edges@[j]).vertices@ != (
                    #[trigger] merged.edges@[m]).vertices@ && merged.edges@[j].members@[0] < merged.edges@[m].members@[0] by {
                        assert(is_group(specs, i as int, before.edges@[j]));
                        if m < k {
                            assert(before.edges@[j].vertices@ != before.edges@[m].vertices@);
                        } else {
                            assert(finds(seen, before.edges@[j], j));
                            assert(!seen.contains_key(fresh.vertices@));
                            assert(before.edges@[j].members@[0] < i);
                        }
                    }
                    assert forall|j: int| 0 <= j < merged.edges@.len() implies finds(found@, #[trigger] merged.edges@[j], j) by {
                        if j < k {
                            assert(finds(seen, before.edges@[j], j));
                            assert(merged.edges@[j] == before.edges@[j]);
                        }
                    }
                }
            },
        }
        i += 1;
    }
    merged
}

/// The best member of a group is one of its members.
pub proof fn lemma_best_is_member(edges: Seq<WindowEdgeSpec>, members: Seq<usize>)
    requires
        members.len() > 0,
    ensures
        members.contains(best_member(edges, members)),
    decreases members.len(),
{
    if members.len() > 1 {
        lemma_best_is_member(edges, members.drop_last());
        let best = best_member(edges, members.drop_last());
        let k = choose|k: int| 0 <= k < members.drop_last().len() && members.drop_last()[k] == best;
        assert(members[k] == best);
        assert(members[members.len() - 1] == members.last());
    } else {
        assert(members[0] == best_member(edges, members));
    }
}

/// No member of a merged hyperedge is likelier than its representative.
pub proof fn law_representative_is_likeliest(edges: Seq<WindowEdgeSpec>, members: Seq<usize>, i: int)
    requires
        0 <= i < members.len(),
        forall|k: int| 0 <= k < members.len() ==> !(#[trigger] edges[members[k] as int]).probability.is_nan_spec(),
    ensures
        !edges[members[i] as int].probability.above(edges[best_member(edges, members) as int].probability),
    decreases members.len(),
{
    if members.len() > 1 {
        let rest = members.drop_last();
        let best = best_member(edges, rest);
        lemma_best_is_member(edges, rest);
        let b = choose|b: int| 0 <= b < rest.len() && rest[b] == best;
        assert(!edges[members[b] as int].probability.is_nan_spec());
        assert(!edges[members[members.len() - 1] as int].probability.is_nan_spec());
        assert forall|k: int| 0 <= k < rest.len() implies !(#[trigger] edges[rest[k] as int]).probability.is_nan_spec() by {
            assert(!edges[members[k] as int].probability.is_nan_spec());
        }
        if i < rest.len() {
            law_representative_is_likeliest(edges, rest, i);
            assert(rest[i] == members[i]);
            assert(!edges[members[i] as int].probability.is_nan_spec());
        }
    }
}

/// Every hyperedge is in exactly one merged hyperedge.
pub proof fn law_merge_partitions(edges: Seq<WindowEdgeSpec>, n: int, merged: MergedEdges, i: usize, j: int, k: int)
    requires
        is_merge(edges, n, merged),
        0 <= j < merged.edges@.len(),
        0 <= k < merged.edges@.len(),
        merged.edges@[j].members@.contains(i),
        merged.edges@[k].members@.contains(i),
    ensures
        j == k,
{
    let a = merged.edges@[j];
    let b = merged.edges@[k];
    assert(is_group(edges, n, a));
    assert(is_group(edges, n, b));
    let x = choose|x: int| 0 <= x < a.members@.len() && a.members@[x] == i;
    let y = choose|y: int| 0 <= y < b.members@.len() && b.members@[y] == i;
    assert(permutation_of(a.vertices@, edges[a.members@[x] as int].vertices));
    assert(permutation_of(b.vertices@, edges[b.members@[y] as int].vertices));
    crate::order::lemma_increasing_unique(a.vertices@, b.vertices@);
    if j < k {
        assert(merged.edges@[j].vertices@ != merged.edges@[k].vertices@);
    } else if k < j {
        assert(merged.edges@[k].vertices@ != merged.edges@[j].vertices@);
    }
}

// ---------------------------------------------------------------------------
// Isolated vertices
// ---------------------------------------------------------------------------

/// Whether some hyperedge has vertex `v`.
pub open spec fn vertex_used(lists: Seq<Seq<u64>>, v: u64) -> bool {
    exists|e: int, i: int| 0 <= e < lists.len() && 0 <= i < lists[e].len() && #[trigger] lists[e][i] == v
}

/// The vertex lists of hyperedges.
pub open spec fn lists_view(lists: Seq<Vec<u64>>) -> Seq<Seq<u64>> {
    lists.map_values(|l: Vec<u64>| l@)
}

/// Every vertex is below `vertex_num`.
pub open spec fn lists_below(lists: Seq<Seq<u64>>, vertex_num: int) -> bool {
    forall|e: int, i: int| 0 <= e < lists.len() && 0 <= i < lists[e].len() ==> (#[trigger] lists[e][i]) < vertex_num
}

/// The used vertices of `0..n`, in increasing order.
pub open spec fn used_vertices(lists: Seq<Seq<u64>>, n: int) -> Seq<u64>
    decreases n,
{
    if n <= 0 {
        Seq::empty()
    } else if vertex_used(lists, (n - 1) as u64) {
        used_vertices(lists, n - 1).push((n - 1) as u64)
    } else {
        used_vertices(lists, n - 1)
    }
}

/// The bits of a syndrome at the given positions.
pub open spec fn selected(bits: Seq<bool>, positions: Seq<u64>) -> Seq<bool> {
    positions.map_values(|p: u64| bits[p as int])
}

/// A hypergraph without isolated vertices.
#[derive(Debug)]
pub struct Compacted {
    pub vertex_num: u64,
    /// the hyperedges, vertices renumbered
    pub hyperedge_vertices: Vec<Vec<u64>>,
    pub syndrome: BitVector,
    /// the original of each vertex; none if no vertex was isolated
    pub vertex_remap: Option<Vec<u64>>,
}

/// The bits of a syndrome at the given positions.
pub fn remap_syndrome(syndrome: &BitVector, new_to_old: &Vec<u64>) -> (compact: BitVector)
    requires
        syndrome.wf(),
        forall|i: int| 0 <= i < new_to_old@.len() ==> new_to_old@[i] < syndrome.size,
    ensures
        compact.wf(),
        compact.padded(),
        compact@ == selected(syndrome@, new_to_old@),
{
    let mut compact = zeros(new_to_old.len() as u64);
    let mut i: usize = 0;
    while i < new_to_old.len()
        invariant
            i <= new_to_old@.len(),
            syndrome.wf(),
            compact.wf(),
            compact.padded(),
            compact.size == new_to_old@.len(),
            forall|i: int| 0 <= i < new_to_old@.len() ==> new_to_old@[i] < syndrome.size,
            forall|k: int| 0 <= k < i ==> compact@[k] == syndrome@[new_to_old@[k] as int],
            forall|k: int| i <= k < new_to_old@.len() ==> !compact@[k],
        decreases new_to_old@.len() - i,
    {
        if get_bit(syndrome, new_to_old[i]) {
            set_bit(&mut compact, i as u64, true);
        }
        i += 1;
    }
    assert(compact@ =~= selected(syndrome@, new_to_old@));
    compact
}

proof fn lemma_used_vertices(lists: Seq<Seq<u64>>, n: int)
    requires
        0 <= n <= u64::MAX,
    ensures
        used_vertices(lists, n).len() <= n,
        crate::order::strictly_increasing(used_vertices(lists, n)),
        forall|v: u64| #[trigger] used_vertices(lists, n).contains(v) <==> v < n && vertex_used(lists, v),
        used_vertices(lists, n).len() == n ==> forall|v: u64| v < n ==> #[trigger] vertex_used(lists, v),
        (forall|v: u64| v < n ==> #[trigger] vertex_used(lists, v)) ==> used_vertices(lists, n).len() == n,
    decreases n,
{
    if n > 0 {
        lemma_used_vertices(lists, n - 1);
        let before = used_vertices(lists, n - 1);
        let after = used_vertices(lists, n);
        let last = (n - 1) as u64;
        if vertex_used(lists, last) {
            assert forall|v: u64| #[trigger] after.contains(v) <==> v < n && vertex_used(lists, v) by {
                if after.contains(v) {
                    let i = choose|i: int| 0 <= i < after.len() && after[i] == v;
                    if i < before.len() {
                        assert(before[i] == v);
                        assert(before.contains(v));
                    }
                }
                if v < n && vertex_used(lists, v) {
                    if v == last {
                        assert(after[before.len() as int] == v);
                    } else {
                        assert(before.contains(v));
                        let i = choose|i: int| 0 <= i < before.len() && before[i] == v;
                        assert(after[i] == v);
                    }
                }
            }
            assert forall|i: int, j: int| 0 <= i < j < after.len() implies after[i] < after[j] by {
                assert(before.contains(before[i]));
            }
        }
    }
}

/// Whether `v` is among the first `n` elements of a list.
spec fn listed(list: Seq<u64>, n: int, v: int) -> bool {
    exists|k: int| 0 <= k < n && #[trigger] list[k] == v
}

/// Marks the vertices that some hyperedge has.
fn mark_used(vertex_num: usize, lists: &Vec<Vec<u64>>) -> (used: Vec<bool>)
    requires
        lists_below(lists_view(lists@), vertex_num as int),
    ensures
        used@.len() == vertex_num,
        forall|v: u64| v < vertex_num ==> used@[v as int] == #[trigger] vertex_used(lists_view(lists@), v),
{
    let ghost all = lists_view(lists@);
    let mut used: Vec<bool> = Vec::new();
    let mut n: usize = 0;
    while n < vertex_num
        invariant
            n <= vertex_num,
            used@.len() == n,
            forall|v: int| 0 <= v < n ==> !used@[v],
        decreases vertex_num - n,
    {
        used.push(false);
        n += 1;
    }
    let mut e: usize = 0;
    proof {
        assert(all.take(0) =~= Seq::<Seq<u64>>::empty());
    }
    while e < lists.len()
        invariant
            e <= lists@.len(),
            all == lists_view(lists@),
            used@.len() == vertex_num,
            lists_below(all, vertex_num as int),
            forall|v: u64| v < vertex_num ==> used@[v as int] == #[trigger] vertex_used(all.take(e as int), v),
        decreases lists@.len() - e,
    {
        let mut i: usize = 0;
        let list = &lists[e];
        let ghost start = used@;
        assert(all[e as int] == list@);
        while i < list.len()
            invariant
                e < lists@.len(),
                all == lists_view(lists@),
                list@ == all[e as int],
                i <= list@.len(),
                used@.len() == vertex_num,
                lists_below(all, vertex_num as int),
                start.len() == vertex_num,
                forall|v: int| 0 <= v < vertex_num ==> #[trigger] used@[v] == (start[v] || listed(list@, i as int, v)),
            decreases list@.len() - i,
        {
            let v: u64 = list[i];
            assert(all[e as int][i as int] < vertex_num);
            let ghost before = used@;
            used.set(v as usize, true);
            proof {
                assert forall|u: int| 0 <= u < vertex_num implies #[trigger] used@[u] == (start[u] || listed(list@, i as int + 1, u)) by {
                    assert(before[u] == (start[u] || listed(list@, i as int, u)));
                    if u == v {
                        assert(list@[i as int] == u);
                    }
                    if listed(list@, i as int, u) {
                        let k = choose|k: int| 0 <= k < i && #[trigger] list@[k] == u;
                        assert(0 <= k < i + 1 && list@[k] == u);
                    }
                    if listed(list@, i as int + 1, u) && u != v {
                        let k = choose|k: int| 0 <= k < i + 1 && #[trigger] list@[k] == u;
                        assert(0 <= k < i && list@[k] == u);
                    }
                }
            }
            i += 1;
        }
        proof {
            let before = all.take(e as int);
            let after = all.take(e as int + 1);
            assert forall|v: u64| v < vertex_num implies used@[v as int] == #[trigger] vertex_used(after, v) by {
                assert(start[v as int] == vertex_used(before, v));
                if vertex_used(before, v) {
                    let (x, y) = choose|x: int, y: int| 0 <= x < before.len() && 0 <= y < before[x].len() && #[trigger] before[x][y] == v;
                    assert(after[x][y] == v);
                }
                assert(used@[v as int] == (start[v as int] || listed(list@, list@.len() as int, v as int)));
                if listed(list@, list@.len() as int, v as int) {
                    let k = choose|k: int| 0 <= k < list@.len() && #[trigger] list@[k] == v as int;
                    assert(after[e as int][k] == v);
                }
                if vertex_used(after, v) {
                    let (x, y) = choose|x: int, y: int| 0 <= x < after.len() && 0 <= y < after[x].len() && #[trigger] after[x][y] == v;
                    if x < e {
                        assert(before[x][y] == v);
                    } else {
                        assert(list@[y] == v);
                    }
                }
            }
        }
        e += 1;
    }
    assert(all.take(all.len() as int) =~= all);
    used
}

/// Whether a compaction renames vertices by `remap` and leaves everything else alone.
pub open spec fn renames(compact: Seq<Seq<u64>>, original: Seq<Seq<u64>>, remap: Seq<u64>) -> bool {
    &&& compact.len() == original.len()
    &&& forall|e: int| 0 <= e < original.len() ==> (#[trigger] compact[e]).len() == original[e].len()
    &&& forall|e: int, i: int|
        0 <= e < original.len() && 0 <= i < original[e].len() ==> (#[trigger] compact[e][i]) < remap.len()
            && remap[compact[e][i] as int] == original[e][i]
}

/// Removes the vertices that no hyperedge has, numbers the others through in order,
/// and selects their bits of the syndrome.
pub fn compact_vertices(vertex_num: u64, lists: &Vec<Vec<u64>>, syndrome: &BitVector) -> (compact: Compacted)
    requires
        syndrome.wf(),
        syndrome.size == vertex_num,
        lists_below(lists_view(lists@), vertex_num as int),
    ensures
        compact.vertex_num == used_vertices(lists_view(lists@), vertex_num as int).len(),
        compact.syndrome.wf(),
        syndrome.padded() ==> compact.syndrome.padded(),
        compact.vertex_remap is None <==> compact.vertex_num == vertex_num,
        match compact.vertex_remap {
            None => {
                &&& lists_view(compact.hyperedge_vertices@) == lists_view(lists@)
                &&& compact.syndrome@ == syndrome@
            },
            Some(remap) => {
                &&& remap@ == used_vertices(lists_view(lists@), vertex_num as int)
                &&& renames(lists_view(compact.hyperedge_vertices@), lists_view(lists@), remap@)
                &&& compact.syndrome@ == selected(syndrome@, remap@)
            },
        },
{
    let ghost all = lists_view(lists@);
    let size: usize = vertex_num as usize;
    let used = mark_used(size, lists);
    let mut old_to_new: Vec<u64> = Vec::new();
    let mut new_to_old: Vec<u64> = Vec::new();
    let mut v: usize = 0;
    while v < size
        invariant
            v <= size,
            size == vertex_num,
            used@.len() == size,
            forall|v: u64| v < size ==> used@[v as int] == #[trigger] vertex_used(all, v),
            new_to_old@ == used_vertices(all, v as int),
            old_to_new@.len() == v,
            forall|u: int| 0 <= u < v && used@[u] ==> (#[trigger] old_to_new@[u]) < new_to_old@.len() && new_to_old@[old_to_new@[u] as int] == u,
        decreases size - v,
    {
        assert(used@[v as int] == vertex_used(all, v as u64));
        if used[v] {
            old_to_new.push(new_to_old.len() as u64);
            new_to_old.push(v as u64);
        } else {
            old_to_new.push(u64::MAX);
        }
        v += 1;
    }
    proof {
        lemma_used_vertices(all, vertex_num as int);
    }
    if new_to_old.len() == size {
        let mut copies: Vec<Vec<u64>> = Vec::new();
        let mut e: usize = 0;
        while e < lists.len()
            invariant
                e <= lists@.len(),
                all == lists_view(lists@),
                lists_view(copies@) =~= all.take(e as int),
            decreases lists@.len() - e,
        {
            let ghost before = copies@;
            let copy = copy_vec(&lists[e]);
            copies.push(copy);
            assert(lists_view(copies@) =~= lists_view(before).push(copy@));
            e += 1;
        }
        assert(all.take(all.len() as int) =~= all);
        return Compacted {
            vertex_num,
            hyperedge_vertices: copies,
            syndrome: crate::bit_vector::copy_of(syndrome),
            vertex_remap: None,
        };
    }
    let mut renamed: Vec<Vec<u64>> = Vec::new();
    let mut e: usize = 0;
    while e < lists.len()
        invariant
            e <= lists@.len(),
            all == lists_view(lists@),
            size == vertex_num,
            lists_below(all, vertex_num as int),
            used@.len() == size,
            old_to_new@.len() == size,
            forall|v: u64| v < size ==> used@[v as int] == #[trigger] vertex_used(all, v),
            forall|u: int| 0 <= u < size && used@[u] ==> (#[trigger] old_to_new@[u]) < new_to_old@.len() && new_to_old@[old_to_new@[u] as int] == u,
            renames(lists_view(renamed@), all.take(e as int), new_to_old@),
        decreases lists@.len() - e,
    {
        let list = &lists[e];
        let mut fresh: Vec<u64> = Vec::new();
        let mut i: usize = 0;
        assert(all[e as int] == list@);
        while i < list.len()
            invariant
                e < lists@.len(),
                i <= list@.len(),
                all == lists_view(lists@),
                list@ == all[e as int],
                size == vertex_num,
                lists_below(all, vertex_num as int),
                used@.len() == size,
                old_to_new@.len() == size,
                forall|v: u64| v < size ==> used@[v as int] == #[trigger] vertex_used(all, v),
                forall|u: int| 0 <= u < size && used@[u] ==> (#[trigger] old_to_new@[u]) < new_to_old@.len() && new_to_old@[old_to_new@[u] as int] == u,
                fresh@.len() == i,
                forall|k: int| 0 <= k < i ==> (#[trigger] fresh@[k]) < new_to_old@.len() && new_to_old@[fresh@[k] as int] == list@[k],
            decreases list@.len() - i,
        {
            let v: u64 = list[i];
            proof {
                assert(all[e as int][i as int] == v);
                assert(vertex_used(all, v));
                assert(used@[v as int]);
            }
            fresh.push(old_to_new[v as usize]);
            i += 1;
        }
        let ghost before = renamed@;
        renamed.push(fresh);
        proof {
            assert(lists_view(renamed@) =~= lists_view(before).push(fresh@));
            let upto = all.take(e as int + 1);
            assert forall|x: int| 0 <= x < upto.len() implies (#[trigger] lists_view(renamed@)[x]).len() == upto[x].len() by {
                if x < e {
                    assert(lists_view(before)[x].len() == all.take(e as int)[x].len());
                }
            }
            assert forall|x: int, y: int| 0 <= x < upto.len() && 0 <= y < upto[x].len() implies (#[trigger] lists_view(renamed@)[x][y]) < new_to_old@.len()
                && new_to_old@[lists_view(renamed@)[x][y] as int] == upto[x][y] by {
                if x < e {
                    assert(lists_view(before)[x][y] < new_to_old@.len());
                    assert(all.take(e as int)[x] == upto[x]);
                }
            }
        }
        e += 1;
    }
    proof {
        assert(all.take(all.len() as int) =~= all);
        assert forall|i: int| 0 <= i < new_to_old@.len() implies new_to_old@[i] < syndrome.size by {
            assert(used_vertices(all, vertex_num as int).contains(new_to_old@[i]));
        }
    }
    let compact_syndrome = remap_syndrome(syndrome, &new_to_old);
    Compacted {
        vertex_num: new_to_old.len() as u64,
        hyperedge_vertices: renamed,
        syndrome: compact_syndrome,
        vertex_remap: Some(new_to_old),
    }
}

/// A compacted hypergraph has no isolated vertex.
pub proof fn law_compaction_leaves_no_isolated_vertex(
    compact: Seq<Seq<u64>>,
    original: Seq<Seq<u64>>,
    vertex_num: int,
    v: u64,
)
    requires
        0 <= vertex_num <= u64::MAX,
        lists_below(original, vertex_num),
        renames(compact, original, used_vertices(original, vertex_num)),
        v < used_vertices(original, vertex_num).len(),
    ensures
        vertex_used(compact, v),
{
    let remap = used_vertices(original, vertex_num);
    lemma_used_vertices(original, vertex_num);
    assert(remap.contains(remap[v as int]));
    let old = remap[v as int];
    let (e, i) = choose|e: int, i: int| 0 <= e < original.len() && 0 <= i < original[e].len() && #[trigger] original[e][i] == old;
    assert(compact[e].len() == original[e].len());
    let w = compact[e][i];
    assert(w < remap.len() && remap[w as int] == old);
    if w < v {
        assert(remap[w as int] < remap[v as int]);
    } else if v < w {
        assert(remap[v as int] < remap[w as int]);
    }
    assert(compact[e][i] == v);
}

/// Compaction keeps every hyperedge's syndrome: a vertex occurs in a compacted
/// hyperedge as often as its original in the original one.
pub proof fn law_compaction_keeps_parity(
    compact: Seq<u64>,
    original: Seq<u64>,
    remap: Seq<u64>,
    v: u64,
)
    requires
        compact.len() == original.len(),
        crate::order::strictly_increasing(remap),
        v < remap.len(),
        forall|i: int| 0 <= i < original.len() ==> (#[trigger] compact[i]) < remap.len() && remap[compact[i] as int] == original[i],
    ensures
        crate::dem::occurs_oddly(compact, v) == crate::dem::occurs_oddly(original, remap[v as int]),
    decreases original.len(),
{
    if original.len() > 0 {
        let c = compact.drop_last();
        let o = original.drop_last();
        assert forall|i: int| 0 <= i < o.len() implies (#[trigger] c[i]) < remap.len() && remap[c[i] as int] == o[i] by {
            assert(c[i] == compact[i]);
        }
        law_compaction_keeps_parity(c, o, remap, v);
        let w = compact[compact.len() - 1];
        assert(remap[w as int] == original.last());
        if w < v {
            assert(remap[w as int] < remap[v as int]);
        } else if v < w {
            assert(remap[v as int] < remap[w as int]);
        }
    }
}

/// Two hyperedges are merged exactly if they have the same vertices, each as often.
pub proof fn law_hyperedges_merge_by_their_vertices(edges: Seq<WindowEdgeSpec>, merged: MergedEdges, i: int, j: int)
    requires
        is_merge(edges, edges.len() as int, merged),
        edges.len() <= usize::MAX,
        0 <= i < edges.len(),
        0 <= j < edges.len(),
    ensures
        merged.original_to_merged@[i] == merged.original_to_merged@[j] <==> edges[i].vertices.to_multiset()
            == edges[j].vertices.to_multiset(),
        merged.edges@[merged.original_to_merged@[i] as int].vertices@.to_multiset() == edges[i].vertices.to_multiset(),
{
    let n = edges.len() as int;
    let (p, q) = (merged.original_to_merged@[i] as int, merged.original_to_merged@[j] as int);
    let (a, b) = (merged.edges@[p], merged.edges@[q]);
    assert(is_group(edges, n, a));
    assert(is_group(edges, n, b));
    let x = a.members@.index_of(i as usize);
    let y = b.members@.index_of(j as usize);
    assert(permutation_of(a.vertices@, edges[a.members@[x] as int].vertices));
    assert(permutation_of(b.vertices@, edges[b.members@[y] as int].vertices));
    if edges[i].vertices.to_multiset() == edges[j].vertices.to_multiset() {
        crate::order::lemma_increasing_unique(a.vertices@, b.vertices@);
        if p < q {
            assert(merged.edges@[p].vertices@ != merged.edges@[q].vertices@);
        } else if q < p {
            assert(merged.edges@[q].vertices@ != merged.edges@[p].vertices@);
        }
    }
}

/// The members of a merged hyperedge are the hyperedges that were merged into it, and one
/// of them stands for it.
pub proof fn law_members_are_the_merged_hyperedges(edges: Seq<WindowEdgeSpec>, merged: MergedEdges, k: int, i: usize)
    requires
        is_merge(edges, edges.len() as int, merged),
        edges.len() <= usize::MAX,
        0 <= k < merged.edges@.len(),
    ensures
        merged.edges@[k].members@.contains(i) <==> i < edges.len() && merged.original_to_merged@[i as int] == k,
        merged.edges@[k].members@.contains(merged.edges@[k].representative),
{
    let group = merged.edges@[k];
    assert(is_group(edges, edges.len() as int, group));
    lemma_best_is_member(edges, group.members@);
    if group.members@.contains(i) {
        let x = group.members@.index_of(i);
        assert(group.members@[x] < edges.len());
        law_merge_partitions(edges, edges.len() as int, merged, i, k, merged.original_to_merged@[i as int] as int);
    }
}

/// Compaction keeps the used vertices, in order; the syndrome of a vertex is that of the
/// vertex that it was.
pub proof fn law_compaction_keeps_used_vertices(lists: Seq<Seq<u64>>, n: int, bits: Seq<bool>, v: u64)
    requires
        0 <= n <= u64::MAX,
    ensures
        forall|i: int, j: int|
            0 <= i < j < used_vertices(lists, n).len() ==> used_vertices(lists, n)[i] < used_vertices(lists, n)[j],
        used_vertices(lists, n).contains(v) <==> v < n && exists|e: int, i: int|
            0 <= e < lists.len() && 0 <= i < lists[e].len() && #[trigger] lists[e][i] == v,
        v < used_vertices(lists, n).len() ==> selected(bits, used_vertices(lists, n))[v as int] == bits[used_vertices(
            lists,
            n,
        )[v as int] as int],
        selected(bits, used_vertices(lists, n)).len() == used_vertices(lists, n).len(),
{
    lemma_used_vertices(lists, n);
    assert(used_vertices(lists, n).contains(v) <==> v < n && vertex_used(lists, v));
}

} // verus!
