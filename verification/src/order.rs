//! Sorting of ids.
use vstd::prelude::*;

verus! {

/// Non-decreasing order.
pub open spec fn increasing(s: Seq<u64>) -> bool {
    forall|i: int, j: int| 0 <= i < j < s.len() ==> s[i] <= s[j]
}

/// Increasing order without repetition.
pub open spec fn strictly_increasing(s: Seq<u64>) -> bool {
    forall|i: int, j: int| 0 <= i < j < s.len() ==> s[i] < s[j]
}

/// The order of pairs: first component, then second.
pub open spec fn pair_before(a: (u64, u64), b: (u64, u64)) -> bool {
    a.0 < b.0 || (a.0 == b.0 && a.1 < b.1)
}

/// Non-decreasing order of pairs.
pub open spec fn pairs_increasing(s: Seq<(u64, u64)>) -> bool {
    forall|i: int, j: int| 0 <= i < j < s.len() ==> !pair_before(s[j], s[i])
}

/// Inserts a pair into an increasing vector, behind the pairs that are not greater.
pub fn insert_pair_sorted(v: &mut Vec<(u64, u64)>, x: (u64, u64))
    requires
        pairs_increasing(old(v)@),
    ensures
        pairs_increasing(final(v)@),
        final(v)@.to_multiset() == old(v)@.to_multiset().insert(x),
{
    let mut at: usize = v.len();
    while at > 0 && (x.0 < v[at - 1].0 || (x.0 == v[at - 1].0 && x.1 < v[at - 1].1))
        invariant
            at <= v@.len(),
            v@ == old(v)@,
            forall|k: int| at <= k < v@.len() ==> pair_before(x, v@[k]),
        decreases at,
    {
        at -= 1;
    }
    proof {
        v@.insert_ensures(at as int, x);
        vstd::seq_lib::to_multiset_insert(v@, at as int, x);
        assert forall|k: int| 0 <= k < at implies !pair_before(x, v@[k]) by {
            assert(!pair_before(x, v@[at - 1]));
            if k < at - 1 {
                assert(!pair_before(v@[at - 1], v@[k]));
            }
        }
    }
    v.insert(at, x);
}

/// There is only one increasing sequence with given elements and multiplicities.
pub proof fn lemma_pairs_increasing_unique(a: Seq<(u64, u64)>, b: Seq<(u64, u64)>)
    requires
        pairs_increasing(a),
        pairs_increasing(b),
        permutation_of(a, b),
    ensures
        a == b,
{
    broadcast use vstd::seq_lib::group_to_multiset_ensures;
    let le = |x: (u64, u64), y: (u64, u64)| !pair_before(y, x);
    assert(vstd::relations::sorted_by(a, le));
    assert(vstd::relations::sorted_by(b, le));
    vstd::seq_lib::lemma_sorted_unique(a, b, le);
}

/// Two sequences with the same elements, each counted as often.
pub open spec fn permutation_of<A>(a: Seq<A>, b: Seq<A>) -> bool {
    a.to_multiset() == b.to_multiset()
}

/// Inserts `x` into an increasing vector, behind the elements that are not greater.
fn insert_id(v: &mut Vec<u64>, x: u64)
    requires
        increasing(old(v)@),
    ensures
        increasing(final(v)@),
        final(v)@.to_multiset() == old(v)@.to_multiset().insert(x),
{
    let mut at: usize = v.len();
    while at > 0 && v[at - 1] > x
        invariant
            at <= v@.len(),
            v@ == old(v)@,
            forall|k: int| at <= k < v@.len() ==> v@[k] > x,
        decreases at,
    {
        at -= 1;
    }
    proof {
        v@.insert_ensures(at as int, x);
        vstd::seq_lib::to_multiset_insert(v@, at as int, x);
        assert(at > 0 ==> v@[at - 1] <= x);
    }
    v.insert(at, x);
}

/// Sorts a vector of ids.
pub fn sort_ids(v: &mut Vec<u64>)
    ensures
        increasing(final(v)@),
        permutation_of(final(v)@, old(v)@),
        final(v)@.len() == old(v)@.len(),
{
    let mut sorted: Vec<u64> = Vec::new();
    let mut i: usize = 0;
    proof {
        assert(v@.take(0) =~= Seq::<u64>::empty());
    }
    while i < v.len()
        invariant
            i <= v@.len(),
            v@ == old(v)@,
            increasing(sorted@),
            sorted@.to_multiset() == v@.take(i as int).to_multiset(),
        decreases v@.len() - i,
    {
        insert_id(&mut sorted, v[i]);
        proof {
            assert(v@.take(i as int + 1) =~= v@.take(i as int).push(v@[i as int]));
            vstd::seq_lib::to_multiset_build(v@.take(i as int), v@[i as int]);
        }
        i += 1;
    }
    proof {
        assert(v@.take(v@.len() as int) =~= v@);
        vstd::seq_lib::to_multiset_len(sorted@);
        vstd::seq_lib::to_multiset_len(v@);
    }
    *v = sorted;
}

/// Sorting a sequence without repetition gives a strictly increasing sequence of
/// the same elements.
pub proof fn lemma_sorted_distinct(before: Seq<u64>, after: Seq<u64>)
    requires
        before.no_duplicates(),
        increasing(after),
        permutation_of(after, before),
    ensures
        strictly_increasing(after),
        after.to_set() == before.to_set(),
        after.no_duplicates(),
{
    broadcast use vstd::seq_lib::group_to_multiset_ensures;
    before.lemma_multiset_has_no_duplicates();
    assert forall|x: u64| after.to_multiset().contains(x) implies after.to_multiset().count(x) == 1 by {
        assert(before.to_multiset().contains(x));
    }
    after.lemma_multiset_has_no_duplicates_conv();
    assert forall|x: u64| after.to_set().contains(x) <==> before.to_set().contains(x) by {
        assert(after.contains(x) <==> after.to_multiset().contains(x));
        assert(before.contains(x) <==> before.to_multiset().contains(x));
    }
    assert(after.to_set() =~= before.to_set());
}

/// There is only one strictly increasing sequence of given elements.
pub proof fn lemma_strictly_increasing_unique(a: Seq<u64>, b: Seq<u64>)
    requires
        strictly_increasing(a),
        strictly_increasing(b),
        a.to_set() == b.to_set(),
    ensures
        a == b,
    decreases a.len(),
{
    if a.len() == 0 {
        if b.len() > 0 {
            assert(b.to_set().contains(b[0]));
        }
        assert(a =~= b);
    } else {
        assert(a.to_set().contains(a.last()));
        assert(b.contains(a.last()));
        assert(b.to_set().contains(b.last()));
        assert(a.contains(b.last()));
        assert(a.last() == b.last());
        let a0 = a.drop_last();
        let b0 = b.drop_last();
        assert forall|x: u64| a0.to_set().contains(x) <==> b0.to_set().contains(x) by {
            if a0.contains(x) {
                let i = choose|i: int| 0 <= i < a0.len() && a0[i] == x;
                assert(a[i] == x);
                assert(a.to_set().contains(x));
                let j = choose|j: int| 0 <= j < b.len() && b[j] == x;
                assert(j < b.len() - 1);
                assert(b0[j] == x);
            }
            if b0.contains(x) {
                let i = choose|i: int| 0 <= i < b0.len() && b0[i] == x;
                assert(b[i] == x);
                assert(b.to_set().contains(x));
                let j = choose|j: int| 0 <= j < a.len() && a[j] == x;
                assert(j < a.len() - 1);
                assert(a0[j] == x);
            }
        }
        assert(a0.to_set() =~= b0.to_set());
        lemma_strictly_increasing_unique(a0, b0);
        assert(a =~= a0.push(a.last()));
        assert(b =~= b0.push(b.last()));
    }
}

/// There is only one increasing sequence with given elements and multiplicities.
pub proof fn lemma_increasing_unique(a: Seq<u64>, b: Seq<u64>)
    requires
        increasing(a),
        increasing(b),
        permutation_of(a, b),
    ensures
        a == b,
{
    broadcast use vstd::seq_lib::group_to_multiset_ensures;
    let le = |x: u64, y: u64| x <= y;
    assert(vstd::relations::sorted_by(a, le));
    assert(vstd::relations::sorted_by(b, le));
    vstd::seq_lib::lemma_sorted_unique(a, b, le);
}

} // verus!
