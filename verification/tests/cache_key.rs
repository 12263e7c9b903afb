//! Keys under which decoders are kept.
use deq_runtime::bin::{
    Error, ErrorModel as Instance, ErrorModelModifier, ErrorModelType, Port, ProbabilityModifier, RemoteCheck,
    RemoteCheckModel,
};
use deq_runtime::cache_key::{build_modifier_fingerprints, cache_key, committing_local_cids_sorted};
use deq_runtime::collections::{IdMap, IdSet};
use deq_runtime::network::ErrorModel;
use deq_runtime::probability::Probability;
use deq_runtime::registry::Registry;
use deq_runtime::relative::{ExpandedCheckModel, ExpandedErrorModel, ExpandedGadget, RelativeMapping};

fn p(value: f64) -> Probability {
    Probability::from_bits(value.to_bits())
}

fn gadget(gid: u64, cid: Option<u64>, eids: &[u64]) -> ExpandedGadget {
    ExpandedGadget {
        gid,
        gtype: 1,
        inputs: vec![],
        outputs: vec![],
        check_model: cid.map(|cid| ExpandedCheckModel { cid, ctype: 1, remote_gadgets: vec![], count_checks: 1 }),
        error_models: eids
            .iter()
            .map(|&eid| ExpandedErrorModel { eid, etype: 1, remote_check_models: vec![] })
            .collect(),
    }
}

fn mapping_with_eids(eids: Vec<u64>) -> RelativeMapping {
    RelativeMapping::try_new(&vec![gadget(1, Some(1), &eids)]).unwrap()
}

fn gadgets_with_cids(cids: &[u64]) -> Vec<ExpandedGadget> {
    cids.iter().enumerate().map(|(i, &cid)| gadget(i as u64 + 1, Some(cid), &[])).collect()
}

fn mapping_with_local_cids(pairs: &[(u64, usize)]) -> RelativeMapping {
    let mut mapping = RelativeMapping::try_new(&vec![]).unwrap();
    mapping.local_cid_of = IdMap::from_pairs(&pairs.to_vec());
    mapping
}

fn pm_dense(probabilities: Vec<f64>) -> ProbabilityModifier {
    ProbabilityModifier {
        probabilities: probabilities.into_iter().map(p).collect(),
        sparse_indices: vec![],
        sparse_probabilities: vec![],
    }
}

fn make_error_model_instance(eid: u64, etype: u64, modifier: Option<ProbabilityModifier>) -> Instance {
    Instance {
        eid,
        etype,
        cid: 1,
        modifier: modifier.map(|probabilities| ErrorModelModifier {
            probability_modifier: Some(probabilities),
            reroute_remote_check_models: vec![],
        }),
    }
}

fn make_error_model(instance: Instance, slots: Vec<Option<RemoteCheckModel>>) -> ErrorModel {
    ErrorModel { instance, modified_remote_check_models: slots, expanded_remote_check_models: None }
}

fn make_emt(etype: u64, errors: Vec<Error>) -> ErrorModelType {
    ErrorModelType { etype, ctype: 1, errors, remote_check_models: vec![] }
}

fn make_error(probability: f64) -> Error {
    Error {
        checks: vec![RemoteCheck { remote_check_model: None, check_index: 0 }],
        probability: p(probability),
        ..Default::default()
    }
}

fn make_remote_check(check_bias: u64) -> RemoteCheckModel {
    RemoteCheckModel {
        previous_remote_check_model: None,
        port: Some(Port::Output(0)),
        expecting_ctype: 0,
        check_bias,
        absolute_cid: None,
    }
}

fn models(list: Vec<(u64, ErrorModel)>) -> Registry<ErrorModel> {
    let mut registry = Registry::new();
    for (eid, model) in list {
        registry.insert(eid, model);
    }
    registry
}

fn types(list: Vec<(u64, ErrorModelType)>) -> Registry<ErrorModelType> {
    let mut registry = Registry::new();
    for (etype, error_model_type) in list {
        registry.insert(etype, error_model_type);
    }
    registry
}

#[test]
fn monolithic_coordinator_build_modifier_fingerprints_picks_up_probability_modifier() {
    let mapping = mapping_with_eids(vec![1]);
    let emts = types(vec![(1, make_emt(1, vec![make_error(0.1)]))]);
    let models_a = models(vec![(1, make_error_model(make_error_model_instance(1, 1, Some(pm_dense(vec![0.1]))), vec![]))]);
    let models_b = models(vec![(1, make_error_model(make_error_model_instance(1, 1, Some(pm_dense(vec![0.2]))), vec![]))]);

    let fps_a = build_modifier_fingerprints(&mapping, &models_a, &emts).unwrap();
    let fps_b = build_modifier_fingerprints(&mapping, &models_b, &emts).unwrap();
    assert_ne!(fps_a, fps_b);
    assert_eq!(fps_a.len(), 1);
}

#[test]
fn monolithic_coordinator_build_modifier_fingerprints_picks_up_etype_structure() {
    let mapping = mapping_with_eids(vec![1]);
    let list = models(vec![(1, make_error_model(make_error_model_instance(1, 1, None), vec![]))]);
    let emts_v1 = types(vec![(1, make_emt(1, vec![make_error(0.1)]))]);
    let emts_v2 = types(vec![(1, make_emt(1, vec![make_error(0.1), make_error(0.2)]))]);

    let fps_v1 = build_modifier_fingerprints(&mapping, &list, &emts_v1);
    let fps_v2 = build_modifier_fingerprints(&mapping, &list, &emts_v2);
    assert!(fps_v1.is_some());
    assert_ne!(fps_v1, fps_v2);
}

#[test]
fn build_modifier_fingerprints_is_positional() {
    let list = models(vec![
        (1, make_error_model(make_error_model_instance(1, 1, Some(pm_dense(vec![0.1]))), vec![])),
        (2, make_error_model(make_error_model_instance(2, 1, Some(pm_dense(vec![0.9]))), vec![])),
    ]);
    let emts = types(vec![(1, make_emt(1, vec![make_error(0.1)]))]);

    let mapping_ab = mapping_with_eids(vec![1, 2]);
    let mapping_ba = mapping_with_eids(vec![2, 1]);
    let fps_ab = build_modifier_fingerprints(&mapping_ab, &list, &emts);
    let fps_ba = build_modifier_fingerprints(&mapping_ba, &list, &emts);
    assert!(fps_ab.is_some());
    assert_ne!(fps_ab, fps_ba);
}

#[test]
fn build_modifier_fingerprints_equal_for_identical_state() {
    let mapping = mapping_with_eids(vec![1]);
    let emts = types(vec![(1, make_emt(1, vec![make_error(0.1)]))]);
    let models_a = models(vec![(1, make_error_model(make_error_model_instance(1, 1, Some(pm_dense(vec![0.1]))), vec![]))]);
    let models_b = models(vec![(1, make_error_model(make_error_model_instance(1, 1, Some(pm_dense(vec![0.1]))), vec![]))]);

    let fps_a = build_modifier_fingerprints(&mapping, &models_a, &emts);
    let fps_b = build_modifier_fingerprints(&mapping, &models_b, &emts);
    assert!(fps_a.is_some());
    assert_eq!(fps_a, fps_b);
}

#[test]
fn window_coordinator_build_modifier_fingerprints_picks_up_probability_modifier() {
    let mapping = mapping_with_eids(vec![1]);
    let emts = types(vec![(1, make_emt(1, vec![make_error(0.1)]))]);
    let models_a = models(vec![(1, make_error_model(make_error_model_instance(1, 1, Some(pm_dense(vec![0.1]))), vec![]))]);
    let models_b = models(vec![(1, make_error_model(make_error_model_instance(1, 1, Some(pm_dense(vec![0.2]))), vec![]))]);

    let fps_a = build_modifier_fingerprints(&mapping, &models_a, &emts);
    let fps_b = build_modifier_fingerprints(&mapping, &models_b, &emts);
    assert!(fps_a.is_some());
    assert_ne!(fps_a, fps_b);
}

#[test]
fn build_modifier_fingerprints_picks_up_check_bias() {
    let mapping = mapping_with_eids(vec![1]);
    let emts = types(vec![(1, make_emt(1, vec![make_error(0.1)]))]);
    let models_bias0 =
        models(vec![(1, make_error_model(make_error_model_instance(1, 1, None), vec![Some(make_remote_check(0))]))]);
    let models_bias5 =
        models(vec![(1, make_error_model(make_error_model_instance(1, 1, None), vec![Some(make_remote_check(5))]))]);

    let fps0 = build_modifier_fingerprints(&mapping, &models_bias0, &emts);
    let fps5 = build_modifier_fingerprints(&mapping, &models_bias5, &emts);
    assert!(fps0.is_some());
    assert_ne!(fps0, fps5);
}

#[test]
fn window_coordinator_build_modifier_fingerprints_picks_up_etype_structure() {
    let mapping = mapping_with_eids(vec![1]);
    let list = models(vec![(1, make_error_model(make_error_model_instance(1, 1, None), vec![]))]);
    let emts_v1 = types(vec![(1, make_emt(1, vec![make_error(0.1)]))]);
    let emts_v2 = types(vec![(1, make_emt(1, vec![make_error(0.2)]))]);

    let fps_v1 = build_modifier_fingerprints(&mapping, &list, &emts_v1);
    let fps_v2 = build_modifier_fingerprints(&mapping, &list, &emts_v2);
    assert!(fps_v1.is_some());
    assert_ne!(fps_v1, fps_v2);
}

#[test]
fn build_modifier_fingerprints_need_known_models() {
    let mapping = mapping_with_eids(vec![1]);
    let emts = types(vec![(1, make_emt(1, vec![make_error(0.1)]))]);
    assert_eq!(build_modifier_fingerprints(&mapping, &models(vec![]), &emts), None);
}

#[test]
fn committing_local_cids_sorted_filters_out_global_cids_not_in_window() {
    let mapping = mapping_with_local_cids(&[(10, 0), (20, 1)]);
    let committing = IdSet::from_ids(&vec![10, 20, 99]);
    let out = committing_local_cids_sorted(&committing, &mapping);
    assert_eq!(out, vec![0, 1]);
}

#[test]
fn committing_local_cids_sorted_is_canonical_across_set_orders() {
    let mapping = mapping_with_local_cids(&[(10, 5), (20, 1), (30, 3), (40, 7)]);
    let s1 = IdSet::from_ids(&vec![10, 20, 30, 40]);
    let s2 = IdSet::from_ids(&vec![40, 30, 20, 10]);
    let v1 = committing_local_cids_sorted(&s1, &mapping);
    let v2 = committing_local_cids_sorted(&s2, &mapping);
    assert_eq!(v1, v2);
    assert_eq!(v1, vec![1, 3, 5, 7]);
}

#[test]
fn committing_local_cids_sorted_distinguishes_different_subsets() {
    let mapping = mapping_with_local_cids(&[(10, 0), (20, 1), (30, 2)]);
    let s_all = IdSet::from_ids(&vec![10, 20, 30]);
    let s_partial = IdSet::from_ids(&vec![10, 20]);
    let v_all = committing_local_cids_sorted(&s_all, &mapping);
    let v_partial = committing_local_cids_sorted(&s_partial, &mapping);
    assert_ne!(v_all, v_partial);
}

#[test]
fn cache_key_built_from_helpers_distinguishes_commit_regions() {
    let gadgets = gadgets_with_cids(&[10, 20, 30]);
    let mapping = RelativeMapping::try_new(&gadgets).unwrap();
    let (list, emts) = (models(vec![]), types(vec![]));

    let k_all = cache_key(&gadgets, &mapping, &list, &emts, Some(&IdSet::from_ids(&vec![10, 20, 30])));
    let k_partial = cache_key(&gadgets, &mapping, &list, &emts, Some(&IdSet::from_ids(&vec![10, 20])));
    assert!(k_all.is_some());
    assert_ne!(k_all, k_partial);
    // a decode of everything has a key of its own
    assert_ne!(k_all, cache_key(&gadgets, &mapping, &list, &emts, None));
}

#[test]
fn numbering_needs_distinct_ids() {
    assert!(RelativeMapping::try_new(&vec![gadget(1, Some(1), &[1]), gadget(1, Some(2), &[2])]).is_none());
    assert!(RelativeMapping::try_new(&vec![gadget(1, Some(1), &[1]), gadget(2, Some(1), &[2])]).is_none());
    assert!(RelativeMapping::try_new(&vec![gadget(1, Some(1), &[1]), gadget(2, Some(2), &[1])]).is_none());
    let mapping = RelativeMapping::try_new(&vec![gadget(5, Some(7), &[1, 2]), gadget(6, None, &[3]), gadget(4, Some(8), &[])]).unwrap();
    assert_eq!(mapping.global_gid_of, vec![5, 6, 4]);
    assert_eq!(mapping.global_cid_of, vec![7, 8]);
    assert_eq!(mapping.global_eid_of, vec![1, 2, 3]);
    assert_eq!(mapping.local_gid_of_local_eid, vec![0, 0, 1]);
    assert_eq!(mapping.local_eid_bias, vec![0, 2, 3]);
    assert_eq!(mapping.start_indices, vec![0, 1]);
    assert_eq!(mapping.count_checks, 2);
}
