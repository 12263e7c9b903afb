//! Why a decoder can be reused: windows with the same key have the same hyperedges.
use crate::bin::{errors_view, ErrorSpec, RemoteCheck};
use crate::cache_key::{
    bits_of_probabilities, error_model_keys, fingerprint_at, fingerprints_of, gadget_key, key_words,
    law_keys_are_faithful, lemma_region_key_members, local, locals, model_known, modifier_key, program_key, region_words, slot_biases,
    Window,
};
use crate::dem::{effective_errors_spec, modifier_fits};
use crate::hypergraph::{cid_commits, context_of, gadget_edges, model_edges, window_edges, ProjectionContext};
use crate::network::ErrorModel;
use crate::probability::Probability;
use crate::relative::{checks_of, cids_of, eids_of, own_eids, starts_of, ExpandedGadget};
use vstd::prelude::*;

verus! {

// ---------------------------------------------------------------------------
// Numbering
// ---------------------------------------------------------------------------

/// Two gadgets with as many checks and error models.
spec fn same_shape(a: ExpandedGadget, b: ExpandedGadget) -> bool {
    &&& a.check_model is Some == b.check_model is Some
    &&& a.check_model is Some ==> a.check_model->0.count_checks == b.check_model->0.count_checks
    &&& a.error_models@.len() == b.error_models@.len()
}

/// Windows of the same shape are numbered in the same way.
proof fn lemma_same_numbers(a: Seq<ExpandedGadget>, b: Seq<ExpandedGadget>)
    requires
        a.len() == b.len(),
        forall|i: int| 0 <= i < a.len() ==> same_shape(#[trigger] a[i], b[i]),
    ensures
        checks_of(a) == checks_of(b),
        starts_of(a) == starts_of(b),
        cids_of(a).len() == cids_of(b).len(),
        eids_of(a).len() == eids_of(b).len(),
    decreases a.len(),
{
    if a.len() > 0 {
        let (ra, rb) = (a.drop_last(), b.drop_last());
        assert forall|i: int| 0 <= i < ra.len() implies same_shape(#[trigger] ra[i], rb[i]) by {
            assert(same_shape(a[i], b[i]));
        }
        lemma_same_numbers(ra, rb);
        assert(same_shape(a[a.len() - 1], b[a.len() - 1]));
    } else {
        assert(starts_of(a) =~= starts_of(b));
    }
}

/// The check model of gadget `i` comes after those of the gadgets before it.
proof fn lemma_cid_position(g: Seq<ExpandedGadget>, i: int)
    requires
        0 <= i < g.len(),
        g[i].check_model is Some,
    ensures
        cids_of(g.take(i)).len() < cids_of(g).len(),
        cids_of(g)[cids_of(g.take(i)).len() as int] == g[i].check_model->0.cid,
    decreases g.len(),
{
    if i == g.len() - 1 {
        assert(g.take(i) =~= g.drop_last());
    } else {
        lemma_cid_position(g.drop_last(), i);
        assert(g.drop_last().take(i) =~= g.take(i));
    }
}

/// The error models of gadget `i` come after those of the gadgets before it.
proof fn lemma_eid_position(g: Seq<ExpandedGadget>, i: int, k: int)
    requires
        0 <= i < g.len(),
        0 <= k < g[i].error_models@.len(),
    ensures
        eids_of(g.take(i)).len() + k < eids_of(g).len(),
        eids_of(g)[eids_of(g.take(i)).len() + k] == g[i].error_models@[k].eid,
    decreases g.len(),
{
    if i == g.len() - 1 {
        assert(g.take(i) =~= g.drop_last());
        assert(own_eids(g.last())[k] == g[i].error_models@[k].eid);
    } else {
        lemma_eid_position(g.drop_last(), i, k);
        assert(g.drop_last().take(i) =~= g.take(i));
    }
}

// ---------------------------------------------------------------------------
// Mechanisms
// ---------------------------------------------------------------------------

/// Two contexts that agree on everything that a projection looks at.
spec fn alike(a: ProjectionContext, b: ProjectionContext) -> bool {
    &&& a.local_start == b.local_start
    &&& a.committed == b.committed
    &&& a.start_indices == b.start_indices
    &&& a.remotes.len() == b.remotes.len()
    &&& a.slots.len() == b.slots.len()
    &&& forall|ri: int| 0 <= ri < a.remotes.len() ==> #[trigger] a.remote_local(ri) == b.remote_local(ri)
    &&& forall|ri: int| 0 <= ri < a.slots.len() ==> (#[trigger] a.slots[ri]) is Some == b.slots[ri] is Some
    &&& forall|ri: int|
        0 <= ri < a.slots.len() && (#[trigger] a.slots[ri]) is Some ==> a.slots[ri]->0.check_bias == b.slots[ri]->0.check_bias
}

/// Contexts that are alike project in the same way.
proof fn lemma_alike_projects(a: ProjectionContext, b: ProjectionContext, checks: Seq<RemoteCheck>, n: int)
    requires
        alike(a, b),
        0 <= n <= checks.len(),
    ensures
        a.project_upto(checks, n) == b.project_upto(checks, n),
    decreases n,
{
    if n > 0 {
        lemma_alike_projects(a, b, checks, n - 1);
        let check = checks[n - 1];
        if let Some(ri) = check.remote_check_model {
            if ri < a.remotes.len() && ri < a.slots.len() {
                assert(a.remote_local(ri as int) == b.remote_local(ri as int));
                assert(a.slots[ri as int] is Some == b.slots[ri as int] is Some);
            }
        }
        assert(a.check_faulty(check) == b.check_faulty(check));
        if !a.check_faulty(check) {
            assert(a.vertex_of(check) == b.vertex_of(check));
        }
    }
}

/// Contexts that are alike give the same hyperedges.
proof fn lemma_alike_edges(a: ProjectionContext, b: ProjectionContext, local_eid: int, errors: Seq<ErrorSpec>, n: int)
    requires
        alike(a, b),
        0 <= n <= errors.len(),
    ensures
        a.edges_upto(local_eid, errors, n) == b.edges_upto(local_eid, errors, n),
    decreases n,
{
    if n > 0 {
        lemma_alike_edges(a, b, local_eid, errors, n - 1);
        lemma_alike_projects(a, b, errors[n - 1].checks, errors[n - 1].checks.len() as int);
    }
}

/// Probabilities with the same bits are the same.
proof fn lemma_same_bits(a: Seq<Probability>, b: Seq<Probability>)
    requires
        bits_of_probabilities(a) == bits_of_probabilities(b),
    ensures
        a == b,
{
    assert(bits_of_probabilities(a).len() == a.len() && bits_of_probabilities(b).len() == b.len());
    assert forall|i: int| 0 <= i < a.len() implies a[i] == b[i] by {
        assert(bits_of_probabilities(a)[i] == a[i].bits);
        assert(bits_of_probabilities(b)[i] == b[i].bits);
    }
    assert(a =~= b);
}

/// Instances with the same probabilities change a type in the same way.
proof fn lemma_same_modifier(a: crate::bin::ErrorModel, b: crate::bin::ErrorModel, errors: Seq<ErrorSpec>)
    requires
        modifier_key(a) == modifier_key(b),
    ensures
        modifier_fits(errors.len(), a) == modifier_fits(errors.len(), b),
        effective_errors_spec(errors, a) == effective_errors_spec(errors, b),
{
    if modifier_key(a) is Some {
        let (p, q) = (a.modifier->0.probability_modifier->0, b.modifier->0.probability_modifier->0);
        lemma_same_bits(p.probabilities@, q.probabilities@);
        lemma_same_bits(p.sparse_probabilities@, q.sparse_probabilities@);
        assert(p.sparse_indices@ == q.sparse_indices@);
    }
}

// ---------------------------------------------------------------------------
// Windows
// ---------------------------------------------------------------------------

/// Two windows with the same key.
spec fn same_key(a: Window, b: Window, list: Seq<u32>) -> bool {
    &&& a.wf()
    &&& b.wf()
    &&& a.region is Some == b.region is Some
    &&& a.region_listed(list)
    &&& b.region_listed(list)
    &&& a.key(list) == b.key(list)
}

/// Gadgets of windows with the same key have the same key.
proof fn lemma_same_gadgets(a: Window, b: Window, list: Seq<u32>)
    requires
        same_key(a, b, list),
    ensures
        a.gadgets.len() == b.gadgets.len(),
        forall|i: int| 0 <= i < a.gadgets.len() ==> same_shape(#[trigger] a.gadgets[i], b.gadgets[i]),
        forall|i: int|
            0 <= i < a.gadgets.len() ==> gadget_key(#[trigger] a.gadgets[i], a.local_gid_of, a.local_cid_of) == gadget_key(
                b.gadgets[i],
                b.local_gid_of,
                b.local_cid_of,
            ),
{
    let (pa, pb) = (
        program_key(a.gadgets, a.local_gid_of, a.local_cid_of),
        program_key(b.gadgets, b.local_gid_of, b.local_cid_of),
    );
    assert(pa == a.key(list).0 && pb == b.key(list).0);
    assert(pa.len() == a.gadgets.len() && pb.len() == b.gadgets.len());
    assert forall|i: int| 0 <= i < a.gadgets.len() implies gadget_key(#[trigger] a.gadgets[i], a.local_gid_of, a.local_cid_of) == gadget_key(
        b.gadgets[i],
        b.local_gid_of,
        b.local_cid_of,
    ) && same_shape(a.gadgets[i], b.gadgets[i]) by {
        assert(pa[i] == pb[i]);
        let (ka, kb) = (pa[i], pb[i]);
        assert(ka == gadget_key(a.gadgets[i], a.local_gid_of, a.local_cid_of));
        assert(kb == gadget_key(b.gadgets[i], b.local_gid_of, b.local_cid_of));
        assert(ka.1.0 == kb.1.0);
        assert(ka.1.1 == kb.1.1);
        assert(ka.1.1.len() == a.gadgets[i].error_models@.len());
        assert(kb.1.1.len() == b.gadgets[i].error_models@.len());
        if a.gadgets[i].check_model is Some {
            let (ca, cb) = (a.gadgets[i].check_model->0, b.gadgets[i].check_model->0);
            let (sa, sb) = (ka.1.0.unwrap(), kb.1.0.unwrap());
            assert(sa.0.1 == ca.count_checks as u64);
            assert(sb.0.1 == cb.count_checks as u64);
        }
    }
    assert forall|i: int| 0 <= i < a.gadgets.len() implies same_shape(#[trigger] a.gadgets[i], b.gadgets[i]) by {
        assert(gadget_key(a.gadgets[i], a.local_gid_of, a.local_cid_of) == gadget_key(b.gadgets[i], b.local_gid_of, b.local_cid_of));
    }
}

/// A check model commits exactly if its local number is listed.
proof fn lemma_commits_by_number(window: Window, list: Seq<u32>, i: int)
    requires
        window.wf(),
        window.region is Some,
        window.region_listed(list),
        0 <= i < window.gadgets.len(),
        window.gadgets[i].check_model is Some,
    ensures
        cid_commits(window.region, window.gadgets[i].check_model->0.cid) == list.contains(
            cids_of(window.gadgets.take(i)).len() as u32,
        ),
        window.local_cid_of[window.gadgets[i].check_model->0.cid] == cids_of(window.gadgets.take(i)).len(),
{
    let cid = window.gadgets[i].check_model->0.cid;
    let region = window.region->0;
    let cids = window.local_cid_of;
    let at = cids_of(window.gadgets.take(i)).len();
    lemma_cid_position(window.gadgets, i);
    assert(cids.contains_key(cids_of(window.gadgets)[at as int]));
    assert(cids[cid] == at);
    let n = at as u32;
    lemma_region_key_members(list, region, cids, n);
    if region.contains(cid) {
        assert(region.contains(cid) && cids.contains_key(cid) && cids[cid] == n);
        assert(list.contains(n));
    }
    if list.contains(n) {
        let other = choose|c: u64| #[trigger] region.contains(c) && cids.contains_key(c) && cids[c] == n;
        assert(cids_of(window.gadgets)[cids[other] as int] == other);
    }
}

/// The contexts of an error model in windows with the same key are alike, and its
/// mechanisms are the same.
proof fn lemma_same_model(a: Window, b: Window, list: Seq<u32>, i: int, k: int)
    requires
        same_key(a, b, list),
        0 <= i < a.gadgets.len(),
        0 <= k < a.gadgets[i].error_models@.len(),
    ensures
        ({
            let local_eid = eids_of(a.gadgets.take(i)).len() + k;
            model_edges(
                a.gadgets[i],
                k,
                local_eid,
                a.error_models,
                a.types,
                a.local_cid_of,
                starts_of(a.gadgets),
                a.region,
            ) == model_edges(b.gadgets[i], k, local_eid, b.error_models, b.types, b.local_cid_of, starts_of(b.gadgets), b.region)
        }),
{
    lemma_same_gadgets(a, b, list);
    lemma_same_numbers(a.gadgets, b.gadgets);
    let (pa, pb) = (a.gadgets.take(i), b.gadgets.take(i));
    assert forall|j: int| 0 <= j < pa.len() implies same_shape(#[trigger] pa[j], pb[j]) by {
        assert(same_shape(a.gadgets[j], b.gadgets[j]));
    }
    lemma_same_numbers(pa, pb);
    let (ga, gb) = (a.gadgets[i], b.gadgets[i]);
    assert(same_shape(ga, gb));
    lemma_eid_position(a.gadgets, i, k);
    lemma_eid_position(b.gadgets, i, k);
    let at = eids_of(pa).len() + k;
    let (ea, eb) = (ga.error_models@[k].eid, gb.error_models@[k].eid);
    assert(model_known(eids_of(a.gadgets)[at], a.error_models, a.types));
    assert(model_known(eids_of(b.gadgets)[at], b.error_models, b.types));
    let (fa, fb) = (
        fingerprints_of(eids_of(a.gadgets), a.error_models, a.types),
        fingerprints_of(eids_of(b.gadgets), b.error_models, b.types),
    );
    assert(fa == a.key(list).1.0 && fb == b.key(list).1.0);
    assert(fa[at] == fingerprint_at(ea, a.error_models, a.types));
    assert(fb[at] == fingerprint_at(eb, b.error_models, b.types));
    let (ma, mb) = (a.error_models[ea], b.error_models[eb]);
    let base = errors_view(a.types[ma.instance.etype].errors@);
    assert(base == errors_view(b.types[mb.instance.etype].errors@));
    lemma_same_modifier(ma.instance, mb.instance, base);
    let errors = effective_errors_spec(base, ma.instance);
    let ca = context_of(ga, k, ma, a.local_cid_of, starts_of(a.gadgets), a.region);
    let cb = context_of(gb, k, mb, b.local_cid_of, starts_of(b.gadgets), b.region);
    // slots
    let (ba, bb) = (slot_biases(ma.modified_remote_check_models@), slot_biases(mb.modified_remote_check_models@));
    assert(ba == bb);
    assert(ba.len() == ca.slots.len() && bb.len() == cb.slots.len());
    assert forall|ri: int| 0 <= ri < ca.slots.len() implies (#[trigger] ca.slots[ri]) is Some == cb.slots[ri] is Some && (ca.slots[ri] is Some
        ==> ca.slots[ri]->0.check_bias == cb.slots[ri]->0.check_bias) by {
        assert(ba[ri] == bb[ri]);
    }
    // remote check models
    let (ka, kb) = (error_model_keys(ga, a.local_cid_of), error_model_keys(gb, b.local_cid_of));
    assert(gadget_key(ga, a.local_gid_of, a.local_cid_of).1.1 == gadget_key(gb, b.local_gid_of, b.local_cid_of).1.1);
    assert(ka == kb);
    assert(ka[k] == kb[k]);
    let (la, lb) = (locals(ca.remotes, a.local_cid_of), locals(cb.remotes, b.local_cid_of));
    assert(ka[k].1 == la && kb[k].1 == lb);
    assert(la.len() == ca.remotes.len() && lb.len() == cb.remotes.len());
    assert forall|ri: int| 0 <= ri < ca.remotes.len() implies #[trigger] ca.remote_local(ri) == cb.remote_local(ri) by {
        assert(la[ri] == local(ca.remotes[ri], a.local_cid_of));
        assert(lb[ri] == local(cb.remotes[ri], b.local_cid_of));
    }
    // the owning check model
    if ga.check_model is Some {
        lemma_cid_position(a.gadgets, i);
        lemma_cid_position(b.gadgets, i);
        assert(a.local_cid_of.contains_key(cids_of(a.gadgets)[cids_of(pa).len() as int]));
        assert(b.local_cid_of.contains_key(cids_of(b.gadgets)[cids_of(pb).len() as int]));
        if a.region is Some {
            lemma_commits_by_number(a, list, i);
            lemma_commits_by_number(b, list, i);
        }
    }
    assert(alike(ca, cb));
    if modifier_fits(base.len(), ma.instance) {
        lemma_effective_len(base, ma.instance);
        lemma_alike_edges(ca, cb, at, errors, base.len() as int);
    }
}

/// Overriding probabilities keeps the number of mechanisms.
proof fn lemma_effective_len(errors: Seq<ErrorSpec>, instance: crate::bin::ErrorModel)
    requires
        modifier_fits(errors.len(), instance),
    ensures
        effective_errors_spec(errors, instance).len() == errors.len(),
{
    if let Some(m) = instance.modifier {
        if let Some(p) = m.probability_modifier {
            let dense = crate::dem::with_dense(errors, p.probabilities@, p.probabilities@.len() as int);
            assert(dense.len() == errors.len());
            lemma_sparse_len(
                dense,
                p.sparse_indices@,
                p.sparse_probabilities@,
                crate::dem::zip_len(p.sparse_indices@.len() as int, p.sparse_probabilities@.len() as int),
            );
        }
    }
}

/// Overriding single probabilities keeps the number of mechanisms.
proof fn lemma_sparse_len(errors: Seq<ErrorSpec>, indices: Seq<u64>, probabilities: Seq<Probability>, n: int)
    requires
        n <= indices.len(),
        forall|i: int| 0 <= i < n ==> (#[trigger] indices[i]) < errors.len(),
    ensures
        crate::dem::with_sparse(errors, indices, probabilities, n).len() == errors.len(),
    decreases n,
{
    if n > 0 {
        lemma_sparse_len(errors, indices, probabilities, n - 1);
    }
}

/// A gadget of windows with the same key has the same hyperedges.
proof fn lemma_same_gadget_edges(a: Window, b: Window, list: Seq<u32>, i: int, n: int)
    requires
        same_key(a, b, list),
        0 <= i < a.gadgets.len(),
        0 <= n <= a.gadgets[i].error_models@.len(),
    ensures
        gadget_edges(
            a.gadgets[i],
            n,
            eids_of(a.gadgets.take(i)).len() as int,
            a.error_models,
            a.types,
            a.local_cid_of,
            starts_of(a.gadgets),
            a.region,
        ) == gadget_edges(
            b.gadgets[i],
            n,
            eids_of(a.gadgets.take(i)).len() as int,
            b.error_models,
            b.types,
            b.local_cid_of,
            starts_of(b.gadgets),
            b.region,
        ),
    decreases n,
{
    if n > 0 {
        lemma_same_gadget_edges(a, b, list, i, n - 1);
        lemma_same_model(a, b, list, i, n - 1);
    }
}

/// The first gadgets of windows with the same key have the same hyperedges.
proof fn lemma_same_edges_upto(a: Window, b: Window, list: Seq<u32>, n: int)
    requires
        same_key(a, b, list),
        0 <= n <= a.gadgets.len(),
    ensures
        window_edges(a.gadgets, n, a.error_models, a.types, a.local_cid_of, starts_of(a.gadgets), a.region) == window_edges(
            b.gadgets,
            n,
            b.error_models,
            b.types,
            b.local_cid_of,
            starts_of(b.gadgets),
            b.region,
        ),
    decreases n,
{
    lemma_same_gadgets(a, b, list);
    if n > 0 {
        lemma_same_edges_upto(a, b, list, n - 1);
        let i = n - 1;
        assert(same_shape(a.gadgets[i], b.gadgets[i]));
        lemma_same_gadget_edges(a, b, list, i, a.gadgets[i].error_models@.len() as int);
        let (pa, pb) = (a.gadgets.take(i), b.gadgets.take(i));
        assert forall|j: int| 0 <= j < pa.len() implies same_shape(#[trigger] pa[j], pb[j]) by {
            assert(same_shape(a.gadgets[j], b.gadgets[j]));
        }
        lemma_same_numbers(pa, pb);
    }
}

/// Windows with the same words have the same hyperedges and as many checks, so that a
/// decoder that was built for one of them serves the other.
pub proof fn law_same_key_means_same_hyperedges(a: Window, b: Window, words: Seq<u64>)
    requires
        a.wf(),
        b.wf(),
        a.region is Some == b.region is Some,
        a.has_words(words),
        b.has_words(words),
    ensures
        a.edges() == b.edges(),
        checks_of(a.gadgets) == checks_of(b.gadgets),
{
    let la = choose|list: Seq<u32>| #[trigger] a.region_listed(list) && list.len() <= usize::MAX && words == key_words()(a.key(list));
    let lb = choose|list: Seq<u32>| #[trigger] b.region_listed(list) && list.len() <= usize::MAX && words == key_words()(b.key(list));
    law_keys_are_faithful(a, la, b, lb);
    let (ra, rb) = (region_words(la), region_words(lb));
    assert(ra == a.key(la).1.1 && rb == b.key(lb).1.1);
    assert(ra.len() == la.len() && rb.len() == lb.len());
    assert forall|i: int| 0 <= i < la.len() implies la[i] == lb[i] by {
        assert(ra[i] == la[i] as u64);
        assert(rb[i] == lb[i] as u64);
    }
    assert(la =~= lb);
    assert(same_key(a, b, la));
    lemma_same_gadgets(a, b, la);
    lemma_same_numbers(a.gadgets, b.gadgets);
    lemma_same_edges_upto(a, b, la, a.gadgets.len() as int);
}

} // verus!
