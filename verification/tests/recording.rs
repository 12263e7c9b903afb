//! Detectors, outcomes and reports of both coordinators, on small hand-made programs.
use deq_runtime::bin;
use deq_runtime::bin::{
    Check, CheckModelType, Connector, Create, Error, ErrorModelType, GadgetType, Instruction, Library, Port, PortType,
    RemoteCheck, RemoteCheckModel, RemoteGadget, RemoteMeasurement,
};
use deq_runtime::bit_vector::{from_sparse_indices, get_bit, to_sparse_indices, BitVector};
use deq_runtime::collections::IdSet;
use deq_runtime::coordinator::{apply_loss_random_imputation, imputation_rng, Outcomes};
use deq_runtime::generator::Generator;
use deq_runtime::decode_plan::{report_decode, BuiltDecoder, DecodePlan, DecoderCache};
use deq_runtime::dem::{DemDetectorGroup, DemDrain, DemEdge, DemPrediction};
use deq_runtime::detectors::get_gadget_detectors;
use deq_runtime::expansion::ExpandStep;
use deq_runtime::hypergraph::{DecodingHypergraph, Hyperedge};
use deq_runtime::mock_decoder::MockDecoderState;
use deq_runtime::monolithic::{MonolithicCoordinator, MonolithicCoordinatorConfig};
use deq_runtime::monolithic_decode::{batch_expand, owners_known};
use deq_runtime::network::{CheckModel, ErrorModel, Gadget, GadgetState};
use deq_runtime::prediction::{get_syndrome, LoadedDecoder};
use deq_runtime::prepare::WindowStep;
use deq_runtime::probability::Probability;
use deq_runtime::registry::Registry;
use deq_runtime::relative::{ExpandedCheckModel, ExpandedErrorModel, ExpandedGadget, RelativeMapping};
use deq_runtime::syndromes::SyndromeStep;
use deq_runtime::window::{WindowCoordinator, WindowCoordinatorConfig};
use deq_runtime::window_decode::{commit_step, unready_gadgets, CommitStep};
use deq_runtime::window_explore::{ExploredWindow, MandatoryStep};

fn p(value: f64) -> Probability {
    Probability::from_bits(value.to_bits())
}

fn monolithic(async_expand: bool, persistent_decoder: bool, merge_hyperedges: bool) -> MonolithicCoordinator {
    MonolithicCoordinator::new(MonolithicCoordinatorConfig {
        assert_parity_factor: false,
        merge_hyperedges,
        async_expand,
        persistent_decoder,
        loss_random_imputation: true,
        loss_random_imputation_seed: None,
    })
}

fn window(buffer_radius: usize) -> WindowCoordinator {
    WindowCoordinator::new(WindowCoordinatorConfig { buffer_radius, ..Default::default() })
}

/// One check for each list of measurements.
fn local_check_model_type(ctype: u64, checks: &[&[u64]]) -> CheckModelType {
    let check = |indices: &&[u64]| Check {
        measurements: indices
            .iter()
            .map(|&measurement_index| RemoteMeasurement { remote_gadget: None, measurement_index })
            .collect(),
        naturally_flipped: false,
    };
    CheckModelType { ctype, checks: checks.iter().map(check).collect(), ..Default::default() }
}

fn gadget_with_outcomes(gid: u64, binding_cid: Option<u64>, outcomes: Option<BitVector>) -> Gadget {
    Gadget {
        instance: bin::Gadget { gid, ..Default::default() },
        outcomes,
        decode_ready: false,
        binding_cid,
        outputs: vec![],
        pauli_frame: None,
        is_free_hop: false,
        state: GadgetState::Uncommitted,
    }
}

fn local_check_model(cid: u64, ctype: u64, gid: u64) -> CheckModel {
    CheckModel {
        instance: bin::CheckModel { cid, ctype, gid, modifier: None },
        attaching_eid_vec: vec![],
        modified_remote_gadgets: vec![],
        expanded_remote_gadgets: Some(vec![]),
        syndrome: None,
        referring_eids: vec![],
    }
}

fn local_error_model(eid: u64, etype: u64, cid: u64) -> ErrorModel {
    ErrorModel {
        instance: bin::ErrorModel { eid, etype, cid, modifier: None },
        modified_remote_check_models: vec![],
        expanded_remote_check_models: Some(vec![]),
    }
}

// --- detectors -------------------------------------------------------------

fn detectors_of_two_checks(types: &mut Registry<CheckModelType>) -> BitVector {
    types.insert(10, local_check_model_type(10, &[&[0, 1], &[1, 2]]));
    let mut gadgets = Registry::new();
    gadgets.insert(1, gadget_with_outcomes(1, Some(1), Some(from_sparse_indices(3, &[1, 2]))));
    let mut check_models = Registry::new();
    check_models.insert(1, local_check_model(1, 10, 1));
    get_gadget_detectors(1, types, &gadgets, &check_models).unwrap()
}

#[test]
fn monolithic_coordinator_gadget_detectors_match_syndrome_slice() {
    let detectors = detectors_of_two_checks(&mut monolithic(true, true, true).types.check_model_types);
    assert_eq!(detectors.size, 2);
    assert_eq!(to_sparse_indices(&detectors), vec![0]);
}

#[test]
fn window_coordinator_gadget_detectors_match_syndrome_slice() {
    let detectors = detectors_of_two_checks(&mut window(0).types.check_model_types);
    assert_eq!(detectors.size, 2);
    assert_eq!(to_sparse_indices(&detectors), vec![0]);
}

fn detectors_without_binding(types: &Registry<CheckModelType>) -> BitVector {
    let mut gadgets = Registry::new();
    gadgets.insert(1, gadget_with_outcomes(1, None, Some(from_sparse_indices(2, &[0]))));
    get_gadget_detectors(1, types, &gadgets, &Registry::new()).unwrap()
}

#[test]
fn monolithic_coordinator_gadget_detectors_empty_when_no_binding() {
    assert_eq!(detectors_without_binding(&monolithic(true, true, true).types.check_model_types).size, 0);
}

#[test]
fn window_coordinator_gadget_detectors_empty_when_no_binding() {
    assert_eq!(detectors_without_binding(&window(0).types.check_model_types).size, 0);
}

#[test]
fn gadget_detectors_use_remote_measurement_with_bias() {
    let mut c = monolithic(true, true, true);
    let check = Check {
        measurements: vec![
            RemoteMeasurement { remote_gadget: None, measurement_index: 0 },
            RemoteMeasurement { remote_gadget: Some(0), measurement_index: 1 },
        ],
        naturally_flipped: false,
    };
    c.types.check_model_types.insert(20, CheckModelType { ctype: 20, checks: vec![check], ..Default::default() });
    // with the bias the check reads bit 3 of the remote outcomes, not bit 1
    let remote_outcomes = from_sparse_indices(4, &[1]);
    assert!(!get_bit(&remote_outcomes, 3));
    assert!(get_bit(&remote_outcomes, 1));
    let mut gadgets = Registry::new();
    gadgets.insert(1, gadget_with_outcomes(1, Some(1), Some(from_sparse_indices(1, &[0]))));
    gadgets.insert(2, gadget_with_outcomes(2, None, Some(remote_outcomes)));
    let mut check_model = local_check_model(1, 20, 1);
    check_model.modified_remote_gadgets = vec![Some(RemoteGadget { measurement_bias: 2, ..Default::default() })];
    check_model.expanded_remote_gadgets = Some(vec![Some(2)]);
    let mut check_models = Registry::new();
    check_models.insert(1, check_model);
    let detectors = get_gadget_detectors(1, &c.types.check_model_types, &gadgets, &check_models).unwrap();
    assert_eq!(detectors.size, 1);
    assert_eq!(to_sparse_indices(&detectors), vec![0]);
}

#[test]
fn wait_for_detectors_resolves_from_syndrome_without_decode() {
    let mut c = window(0);
    c.types.gadget_types.insert(0, GadgetType::default());
    c.gadgets.insert(1, gadget_with_outcomes(1, Some(1), Some(from_sparse_indices(3, &[1, 2]))));
    let mut check_model = local_check_model(1, 0, 1);
    check_model.syndrome = Some(from_sparse_indices(2, &[0]));
    c.check_models.insert(1, check_model);
    let detectors = c.wait_for_detectors(1).unwrap().expect("detectors");
    assert_eq!(detectors.size, 2);
    assert_eq!(to_sparse_indices(&detectors), vec![0]);
    assert!(c.gadgets.get(1).unwrap().pauli_frame.is_none(), "nothing was decoded");
}

#[test]
fn wait_for_detectors_empty_when_no_binding() {
    let mut c = window(0);
    c.types.gadget_types.insert(0, GadgetType::default());
    c.gadgets.insert(1, gadget_with_outcomes(1, None, None));
    assert_eq!(c.wait_for_detectors(1).unwrap().expect("detectors").size, 0);
}

// --- outcomes --------------------------------------------------------------

fn all_lost() -> Outcomes {
    Outcomes {
        gid: 1,
        outcomes: Some(BitVector { size: 8, data: vec![0] }),
        loss_mask: Some(BitVector { size: 8, data: vec![0xff] }),
    }
}

#[test]
fn impute_loss_outcomes_takes_the_mask_and_randomizes_marked_bits() {
    let mut rng = imputation_rng(true, Some(7));
    let mut outcomes = all_lost();
    outcomes.impute_loss_outcomes(rng.as_mut());
    assert!(outcomes.loss_mask.is_none(), "mask must be taken so decode cannot re-impute");
    let imputed = outcomes.outcomes.clone().unwrap();
    assert_eq!(imputed.data, vec![0b0010_1010]);
    outcomes.impute_loss_outcomes(rng.as_mut());
    assert_eq!(outcomes.outcomes.unwrap(), imputed, "second call is a no-op once the mask is gone");
}

#[test]
fn impute_loss_outcomes_respects_disabled_imputation() {
    let mut rng = imputation_rng(false, None);
    let mut outcomes = all_lost();
    outcomes.impute_loss_outcomes(rng.as_mut());
    assert!(outcomes.loss_mask.is_none(), "mask is still consumed when imputation is off");
    assert_eq!(
        outcomes.outcomes.unwrap(),
        BitVector { size: 8, data: vec![0] },
        "disabled imputation leaves outcome bits untouched",
    );
}

/// A coordinator that knows gadgets with three measurements.
fn submit_fixture(buffer_radius: usize, gadget: Gadget) -> WindowCoordinator {
    let mut c = window(buffer_radius);
    c.types.gadget_types.insert(0, GadgetType { num_measurements: 3, ..Default::default() });
    c.gadgets.insert(1, gadget);
    c
}

fn submitted(gid: u64, outcomes: BitVector) -> Outcomes {
    Outcomes { gid, outcomes: Some(outcomes), loss_mask: None }
}

#[test]
fn submit_outcomes_publishes_to_the_gadget_channel() {
    let mut c = submit_fixture(0, gadget_with_outcomes(1, None, None));
    assert!(c.gadgets.get(1).unwrap().outcomes.is_none(), "no outcomes before submit");
    let bits = from_sparse_indices(3, &[1, 2]);
    c.submit_outcomes(submitted(1, bits.clone()), None).expect("submit");
    assert_eq!(c.gadgets.get(1).unwrap().outcomes, Some(bits), "outcomes are published");
    assert!(
        c.submit_outcomes(submitted(999, from_sparse_indices(0, &[])), None).is_err(),
        "submit_outcomes for an unloaded gid errors",
    );
}

#[test]
fn submit_outcomes_does_not_mark_decode_ready() {
    let mut c = submit_fixture(0, gadget_with_outcomes(1, None, None));
    c.submit_outcomes(submitted(1, from_sparse_indices(3, &[1, 2])), None).expect("submit");
    assert!(
        !c.gadgets.get(1).unwrap().decode_ready,
        "submit_outcomes alone must not mark the gadget decode-ready",
    );
}

#[test]
fn submit_outcomes_is_idempotent_with_decode_reload() {
    let mut c = submit_fixture(0, gadget_with_outcomes(1, None, None));
    let bits = from_sparse_indices(3, &[1, 2]);
    c.submit_outcomes(submitted(1, bits.clone()), None).expect("submit");
    let load = c.begin_decode(submitted(1, bits.clone()), None).expect("decode");
    assert!(!load.first_arrival, "the outcomes are there");
    assert_eq!(c.gadgets.get(1).unwrap().outcomes, Some(bits));
}

#[test]
fn submit_outcomes_imputes_on_arrival_and_decode_does_not_redraw() {
    let seed = 7u64;
    let mut gadget = gadget_with_outcomes(1, None, None);
    gadget.is_free_hop = true;
    gadget.pauli_frame = Some(from_sparse_indices(0, &[]));
    let mut c = submit_fixture(1, gadget);
    let mut own = imputation_rng(true, Some(seed));
    let raw = from_sparse_indices(3, &[]);
    let mask = from_sparse_indices(3, &[0, 1, 2]);
    let request = || Outcomes { gid: 1, outcomes: Some(raw.clone()), loss_mask: Some(mask.clone()) };

    c.submit_outcomes(request(), own.as_mut()).expect("submit_outcomes");
    let mut expected = raw.clone();
    let mut rng = Generator::new(seed);
    apply_loss_random_imputation(&mut expected, &mask, &mut rng);
    let stored = c.gadgets.get(1).unwrap().outcomes.clone().unwrap();
    assert_eq!(stored, expected, "submit_outcomes must impute lost bits on arrival (mask consumed)");

    c.begin_decode(request(), own.as_mut()).expect("decode");
    let after_decode = c.gadgets.get(1).unwrap().outcomes.clone().unwrap();
    assert_eq!(after_decode, stored, "decode must not re-impute over the submit-time outcomes (no second RNG draw)");
}

// --- increments ------------------------------------------------------------

fn recording_library(error_model_type: ErrorModelType, num_measurements: u64) -> Library {
    Library {
        port_types: vec![PortType { ptype: 1, observables: 1 }],
        gadget_types: vec![
            GadgetType { gtype: 100, outputs: vec![1], num_measurements, ..Default::default() },
            GadgetType { gtype: 101, inputs: vec![1], num_measurements, ..Default::default() },
        ],
        check_model_types: vec![CheckModelType {
            ctype: 10,
            checks: vec![Check::default(), Check::default()],
            ..Default::default()
        }],
        error_model_types: vec![error_model_type],
        program: vec![],
    }
}

fn error(probability: f64, remote_check_model: Option<u64>, check_index: u64) -> Error {
    let checks = vec![RemoteCheck { remote_check_model, check_index }];
    Error { probability: p(probability), checks, ..Default::default() }
}

fn absolute_errors(absolute_cid: u64, errors: Vec<Error>) -> ErrorModelType {
    let remote = RemoteCheckModel { absolute_cid: Some(absolute_cid), ..Default::default() };
    ErrorModelType { etype: 20, ctype: 10, remote_check_models: vec![remote], errors }
}

fn invariant_errors() -> ErrorModelType {
    absolute_errors(1, vec![error(0.01, None, 0), error(0.02, Some(0), 1)])
}

fn gadget(gtype: u64, previous: Option<u64>) -> Instruction {
    let connectors = previous.iter().map(|&gid| Connector { gid, port: 0 }).collect();
    Instruction { create: Some(Create::Gadget(bin::Gadget { gid: 0, gtype, connectors, modifier: None })) }
}

fn check_model(gid: u64) -> Instruction {
    Instruction { create: Some(Create::CheckModel(bin::CheckModel { cid: 0, ctype: 10, gid, modifier: None })) }
}

fn error_model(cid: u64) -> Instruction {
    Instruction { create: Some(Create::ErrorModel(bin::ErrorModel { eid: 0, etype: 20, cid, modifier: None })) }
}

fn run_monolithic(c: &mut MonolithicCoordinator, instruction: Instruction) -> u64 {
    c.try_execute(instruction).unwrap().unwrap()
}

fn run_window(c: &mut WindowCoordinator, instruction: Instruction) -> u64 {
    c.try_execute(instruction).unwrap().unwrap()
}

fn assert_invariant_increments(drain: &DemDrain) {
    assert_eq!(
        drain.detector_groups,
        vec![DemDetectorGroup { gid: 1, cid: 1, count: 2 }, DemDetectorGroup { gid: 2, cid: 2, count: 2 }]
    );
    let mut detectors: Vec<Vec<(u64, u64)>> = drain.edges.iter().map(|e| e.detectors.clone()).collect();
    detectors.sort();
    assert_eq!(detectors, vec![vec![(1, 1)], vec![(2, 0)]]);
    assert!(drain.edges.iter().all(|edge| edge.eid == 1));
    let mut probabilities: Vec<f64> = drain.edges.iter().map(|e| f64::from_bits(e.probability.bits)).collect();
    probabilities.sort_by(f64::total_cmp);
    assert_eq!(probabilities, vec![0.01, 0.02]);
}

fn invariant_program(async_expand: bool) -> MonolithicCoordinator {
    let mut c = monolithic(async_expand, async_expand, true);
    c.set_dem_enabled(true);
    assert_eq!(c.load_library(recording_library(invariant_errors(), 0)), Ok(()));
    assert_eq!(run_monolithic(&mut c, gadget(100, None)), 1);
    assert_eq!(run_monolithic(&mut c, check_model(1)), 1);
    assert_eq!(run_monolithic(&mut c, gadget(101, Some(1))), 2);
    assert_eq!(run_monolithic(&mut c, check_model(2)), 2);
    assert_eq!(run_monolithic(&mut c, error_model(2)), 1);
    c
}

#[test]
fn monolithic_coordinator_dem_log_matches_execute_increments() {
    let mut c = invariant_program(true);
    for cid in [1, 2] {
        assert_eq!(c.expand_check_model(cid), ExpandStep::Expanded);
    }
    assert_eq!(c.expand_error_model(1), ExpandStep::Expanded);
    assert!(!c.dem_log.has_pending());
    assert_invariant_increments(&c.drain_dem(false));
    assert_eq!(c.drain_dem(false), DemDrain::default());
}

#[test]
fn dem_log_matches_execute_increments_sync_expand() {
    let mut c = invariant_program(false);
    assert!(c.dem_log.has_pending(), "no expansion yet: the remote edge stays pending");
    let empty = || from_sparse_indices(0, &[]);
    assert!(!c.begin_decode(submitted(1, empty()), None).unwrap().is_final_gadget);
    assert!(c.begin_decode(submitted(2, empty()), None).unwrap().is_final_gadget);
    let mut part = c.take_part(2).unwrap();
    assert!(owners_known(&part));
    assert!(batch_expand(&mut part, &mut c.dem_log).is_none());
    assert!(!c.dem_log.has_pending(), "the expansion at decode time resolved the remote slot");
    assert_invariant_increments(&c.drain_dem(false));
}

#[test]
fn window_coordinator_dem_log_matches_execute_increments() {
    let mut c = window(0);
    c.set_dem_enabled(true);
    assert_eq!(c.load_library(recording_library(invariant_errors(), 0)), Ok(()));
    assert_eq!(run_window(&mut c, gadget(100, None)), 1);
    assert_eq!(run_window(&mut c, check_model(1)), 1);
    assert_eq!(run_window(&mut c, gadget(101, Some(1))), 2);
    assert_eq!(run_window(&mut c, check_model(2)), 2);
    assert_eq!(run_window(&mut c, error_model(2)), 1);
    assert_invariant_increments(&c.drain_dem(false));
    assert_eq!(c.drain_dem(false), DemDrain::default());
}

#[test]
fn drain_dem_final_flush_recovers_missed_resolution() {
    let mut c = monolithic(true, true, true);
    c.set_dem_enabled(true);
    c.dem_log.on_check_model(1, 7, 2);
    let slots = vec![Some(RemoteCheckModel::default())];
    let mut model = local_error_model(11, 0, 5);
    model.modified_remote_check_models = slots.clone();
    model.expanded_remote_check_models = Some(vec![Some(7)]);
    c.error_models.insert(11, model);
    c.dem_log.on_error_model(1, 11, 5, vec![error(0.02, Some(0), 1)], &slots);
    assert!(c.dem_log.has_pending());

    assert!(c.drain_dem(false).edges.is_empty(), "a non-final drain does not look at the expansions");
    assert!(c.dem_log.has_pending());
    let drain = c.drain_dem(true);
    assert_eq!(
        drain.edges,
        vec![DemEdge { gid: 1, eid: 11, error_index: 0, detectors: vec![(7, 1)], probability: p(0.02) }]
    );
    assert!(!c.dem_log.has_pending());
}

#[test]
fn dem_log_absolute_cid_forward_reference_waits_for_check_model() {
    let mut c = window(0);
    c.set_dem_enabled(true);
    assert_eq!(c.load_library(recording_library(absolute_errors(2, vec![error(0.02, Some(0), 1)]), 0)), Ok(()));
    assert_eq!(run_window(&mut c, gadget(100, None)), 1);
    assert_eq!(run_window(&mut c, check_model(1)), 1);
    assert_eq!(c.drain_dem(false).detector_groups.len(), 1);
    assert_eq!(run_window(&mut c, error_model(1)), 1);
    let pending = c.drain_dem(false);
    assert!(pending.detector_groups.is_empty());
    assert!(pending.edges.is_empty(), "edge waits for absolute cid=2 to be announced");
    assert!(c.dem_log.has_pending());
    assert_eq!(run_window(&mut c, gadget(101, Some(1))), 2);
    assert_eq!(run_window(&mut c, check_model(2)), 2);
    let drain = c.drain_dem(false);
    assert_eq!(drain.detector_groups, vec![DemDetectorGroup { gid: 2, cid: 2, count: 2 }]);
    assert_eq!(
        drain.edges,
        vec![DemEdge { gid: 1, eid: 1, error_index: 0, detectors: vec![(2, 1)], probability: p(0.02) }]
    );
    assert!(!c.dem_log.has_pending());
}

#[test]
fn dem_log_port_referral_waits_for_target_check_model() {
    let remote = RemoteCheckModel { port: Some(Port::Output(0)), check_bias: 1, ..Default::default() };
    let errors = vec![error(0.02, Some(0), 0)];
    let mut c = window(0);
    c.set_dem_enabled(true);
    let types = ErrorModelType { etype: 20, ctype: 10, remote_check_models: vec![remote], errors };
    assert_eq!(c.load_library(recording_library(types, 0)), Ok(()));
    assert_eq!(run_window(&mut c, gadget(100, None)), 1);
    assert_eq!(run_window(&mut c, check_model(1)), 1);
    let initial = c.drain_dem(false);
    assert_eq!(initial.detector_groups, vec![DemDetectorGroup { gid: 1, cid: 1, count: 2 }]);
    assert!(initial.edges.is_empty());

    assert_eq!(run_window(&mut c, error_model(1)), 1);
    let blocked_on_port = c.drain_dem(false);
    assert!(blocked_on_port.detector_groups.is_empty());
    assert!(blocked_on_port.edges.is_empty(), "edge waits while the source output port is unconnected");
    assert!(c.dem_log.has_pending());

    assert_eq!(run_window(&mut c, gadget(101, Some(1))), 2);
    let blocked_on_gid = c.drain_dem(false);
    assert!(blocked_on_gid.detector_groups.is_empty());
    assert!(
        blocked_on_gid.edges.is_empty(),
        "edge waits after port resolution until target gid has a check model"
    );
    assert!(c.dem_log.has_pending());

    assert_eq!(run_window(&mut c, check_model(2)), 2);
    let drain = c.drain_dem(false);
    assert_eq!(drain.detector_groups, vec![DemDetectorGroup { gid: 2, cid: 2, count: 2 }]);
    assert_eq!(
        drain.edges,
        vec![DemEdge { gid: 1, eid: 1, error_index: 0, detectors: vec![(2, 1)], probability: p(0.02) }]
    );
    assert!(!c.dem_log.has_pending());
}

// --- reports of decodes ----------------------------------------------------

/// One gadget with one check and one error model.
fn prediction_gadgets(gid: u64, cid: u64, eid: u64) -> Vec<ExpandedGadget> {
    vec![ExpandedGadget {
        gid,
        gtype: 0,
        inputs: vec![],
        outputs: vec![],
        check_model: Some(ExpandedCheckModel { cid, ctype: 401, remote_gadgets: vec![], count_checks: 1 }),
        error_models: vec![ExpandedErrorModel { eid, etype: 501, remote_check_models: vec![] }],
    }]
}

fn prediction_types(probabilities: &[f64]) -> Registry<ErrorModelType> {
    let errors = probabilities.iter().map(|&probability| error(probability, None, 0)).collect();
    let mut types = Registry::new();
    types.insert(501, ErrorModelType { etype: 501, ctype: 401, errors, ..Default::default() });
    types
}

fn decoder_of(decoder: BuiltDecoder) -> LoadedDecoder {
    LoadedDecoder {
        hid: 0,
        tables: decoder.tables,
        vertex_num: decoder.vertex_num,
        vertex_remap: decoder.vertex_remap,
        decoder_vertices: decoder.decoder_vertices,
    }
}

/// A decoder that answers the one set bit with the first hyperedge.
fn prediction_decoder() -> MockDecoderState {
    let mut mock = MockDecoderState::new();
    mock.set_response(from_sparse_indices(1, &[0]).data, vec![0]);
    mock
}

/// Decodes one gadget and reports it; tells whether a kept decoder was used.
fn decode_one(
    mock: &mut MockDecoderState,
    cache: &mut DecoderCache,
    persistent: bool,
    ids: (u64, u64, u64),
    types: &Registry<ErrorModelType>,
    syndrome: &BitVector,
    committing: Option<&IdSet>,
) -> (DemPrediction, bool) {
    let (gid, cid, eid) = ids;
    let gadgets = prediction_gadgets(gid, cid, eid);
    let mapping = RelativeMapping::try_new(&gadgets).unwrap();
    let mut error_models = Registry::new();
    error_models.insert(eid, local_error_model(eid, 501, cid));
    let plan = cache.plan(persistent, &gadgets, &mapping, syndrome, &error_models, types, committing).unwrap();
    let (decoder, subgraph, reused) = match plan {
        DecodePlan::Reuse { row, syndrome } => {
            let decoder = cache.rows[row].clone();
            let subgraph = mock.decode_loaded(decoder.hid, Some(syndrome)).unwrap();
            (decoder, subgraph, true)
        }
        DecodePlan::Build { key, decoder, syndrome, .. } => {
            let hyperedge = |vertices: &Vec<u64>| Hyperedge { vertices: vertices.clone(), probability: p(0.1) };
            let hyperedges = decoder.decoder_vertices.iter().map(hyperedge).collect();
            let hypergraph = DecodingHypergraph { vertex_num: decoder.vertex_num, hyperedges };
            match key {
                Some(key) => {
                    let hid = mock.load_hypergraph(hypergraph);
                    let row = cache.keep(key, hid, decoder);
                    let subgraph = mock.decode_loaded(hid, Some(syndrome)).unwrap();
                    (cache.rows[row].clone(), subgraph, false)
                }
                None => {
                    let subgraph = mock.decode(Some(hypergraph), Some(syndrome)).unwrap();
                    (decoder_of(decoder), subgraph, false)
                }
            }
        }
    };
    let report =
        report_decode(gid, &subgraph, &decoder, committing, &gadgets, &mapping, &error_models, types, cache).unwrap();
    (report, reused)
}

/// The syndrome of one check that reads a set outcome.
fn prediction_syndrome(gid: u64, cid: u64) -> BitVector {
    let mut types = Registry::new();
    types.insert(401, local_check_model_type(401, &[&[0]]));
    let mut gadgets = Registry::new();
    gadgets.insert(gid, gadget_with_outcomes(gid, Some(cid), Some(from_sparse_indices(1, &[0]))));
    let mut check_models = Registry::new();
    check_models.insert(cid, local_check_model(cid, 401, gid));
    get_syndrome(&vec![cid], &gadgets, &check_models, &types).unwrap()
}

fn monolithic_reports(
    persistent: bool,
    merge: bool,
    probabilities: &[f64],
    decodes: &[(u64, u64, u64)],
) -> (Vec<DemPrediction>, bool) {
    let mut c = monolithic(true, persistent, merge);
    c.set_dem_enabled(true);
    let (mut mock, mut cache, types) =
        (prediction_decoder(), DecoderCache::new(merge, false), prediction_types(probabilities));
    let mut last_reused = false;
    for &ids in decodes {
        let syndrome = prediction_syndrome(ids.0, ids.1);
        let (report, reused) = decode_one(&mut mock, &mut cache, persistent, ids, &types, &syndrome, None);
        c.dem_log.push_prediction(report);
        last_reused = reused;
    }
    (c.drain_dem_predictions(), last_reused)
}

fn window_reports(
    persistent: bool,
    merge: bool,
    probabilities: &[f64],
    decodes: &[(u64, u64, u64)],
) -> (Vec<DemPrediction>, bool) {
    let mut c = window(0);
    c.set_dem_enabled(true);
    let (mut mock, mut cache, types) =
        (prediction_decoder(), DecoderCache::new(merge, true), prediction_types(probabilities));
    let mut last_reused = false;
    for &ids in decodes {
        let committing = IdSet::from_ids(&vec![ids.1]);
        let syndrome = from_sparse_indices(1, &[0]);
        let (report, reused) =
            decode_one(&mut mock, &mut cache, persistent, ids, &types, &syndrome, Some(&committing));
        c.dem_log.push_prediction(report);
        last_reused = reused;
    }
    (c.drain_dem_predictions(), last_reused)
}

fn fired_prediction() -> DemPrediction {
    DemPrediction {
        gid: 101,
        window_gids: vec![101],
        committed_edges: vec![(301, 0)],
        fired: vec![(301, 0)],
        flips: vec![(201, 0)],
        ..Default::default()
    }
}

fn merged_prediction() -> DemPrediction {
    DemPrediction {
        committed_edges: vec![(301, 0), (301, 1)],
        fired: vec![(301, 0), (301, 1)],
        ..fired_prediction()
    }
}

fn cached_prediction() -> DemPrediction {
    DemPrediction { gid: 102, seq: 1, window_gids: vec![102], flips: vec![(202, 0)], ..fired_prediction() }
}

#[test]
fn monolithic_coordinator_decode_pushes_global_fired_prediction() {
    let (reports, _) = monolithic_reports(false, false, &[0.1], &[(101, 201, 301)]);
    assert_eq!(reports, vec![fired_prediction()]);
}

#[test]
fn window_coordinator_decode_pushes_global_fired_prediction() {
    let (reports, _) = window_reports(false, false, &[0.1], &[(101, 201, 301)]);
    assert_eq!(reports, vec![fired_prediction()]);
}

#[test]
fn monolithic_coordinator_decode_expands_merged_hyperedge_prediction_constituents() {
    let (reports, _) = monolithic_reports(false, true, &[0.1, 0.09], &[(101, 201, 301)]);
    assert_eq!(reports, vec![merged_prediction()]);
}

#[test]
fn window_coordinator_decode_expands_merged_hyperedge_prediction_constituents() {
    let (reports, _) = window_reports(false, true, &[0.1, 0.09], &[(101, 201, 301)]);
    assert_eq!(reports, vec![merged_prediction()]);
}

#[test]
fn monolithic_coordinator_decode_cache_hit_pushes_global_fired_prediction() {
    let (reports, reused) = monolithic_reports(true, true, &[0.1], &[(101, 201, 301), (102, 202, 301)]);
    assert!(reused, "the second part has the shape of the first");
    assert_eq!(reports[1], cached_prediction());
}

#[test]
fn window_coordinator_decode_cache_hit_pushes_global_fired_prediction() {
    let (reports, reused) = window_reports(true, true, &[0.1], &[(101, 201, 301), (102, 202, 301)]);
    assert!(reused, "the second window has the shape of the first");
    assert_eq!(reports[1], cached_prediction());
}

#[test]
fn dem_prediction_drain_passthroughs_dispatch_non_empty_real_coordinators() {
    let first = DemPrediction { gid: 7, fired: vec![(70, 0)], ..Default::default() };
    let second = DemPrediction { gid: 8, fired: vec![(80, 1)], ..Default::default() };
    let numbered = DemPrediction { seq: 1, ..second.clone() };

    let mut m = monolithic(true, true, true);
    m.set_dem_enabled(true);
    m.dem_log.push_prediction(first.clone());
    m.dem_log.push_prediction(second.clone());
    assert_eq!(m.drain_dem_predictions_for(7), vec![first.clone()]);
    assert_eq!(m.drain_dem_predictions(), vec![numbered.clone()]);

    let mut w = window(0);
    w.set_dem_enabled(true);
    w.dem_log.push_prediction(first.clone());
    w.dem_log.push_prediction(second);
    assert_eq!(w.drain_dem_predictions_for(7), vec![first]);
    assert_eq!(w.drain_dem_predictions(), vec![numbered]);
}

#[test]
fn commit_region_waits_for_neighbor_decode_readiness() {
    let mut c = window(1);
    c.set_dem_enabled(true);
    assert_eq!(c.load_library(recording_library(invariant_errors(), 1)), Ok(()));
    assert_eq!(run_window(&mut c, gadget(100, None)), 1);
    assert_eq!(run_window(&mut c, check_model(1)), 1);
    assert_eq!(run_window(&mut c, gadget(101, Some(1))), 2);
    assert_eq!(run_window(&mut c, check_model(2)), 2);
    let one_bit = from_sparse_indices(1, &[]);
    c.submit_outcomes(submitted(2, one_bit.clone()), None).unwrap();
    c.begin_decode(submitted(1, one_bit.clone()), None).unwrap();
    for cid in [1, 2] {
        assert!(matches!(c.update_syndrome(cid), SyndromeStep::Stored));
    }
    let lookahead = c.config.lookahead_radius();
    let (mut explored, step) = ExploredWindow::explore_mandatory_zone(1, &c.gadgets, 1);
    assert!(matches!(step, MandatoryStep::Done));
    explored.explore_lookahead_zone(&c.gadgets, &c.check_models, 1, lookahead);
    assert!(matches!(commit_step(&mut explored, &mut c.gadgets, 1), CommitStep::Claimed));
    let unready = unready_gadgets(&explored.decoder_window, &c.gadgets).unwrap();
    assert_eq!(unready, vec![2], "submit_outcomes alone must not let a neighboring gadget commit");

    // the error model arrives, then the neighbor's own decode
    let eid = run_window(&mut c, error_model(2));
    c.begin_decode(submitted(2, one_bit), None).unwrap();
    assert!(unready_gadgets(&explored.decoder_window, &c.gadgets).unwrap().is_empty());

    let mut mock = MockDecoderState::new();
    let cache = DecoderCache::new(true, true);
    let mut claim = Some(explored);
    for leader in [1, 2] {
        let explored = match claim.take() {
            Some(explored) => explored,
            None => {
                let (mut next, _) = ExploredWindow::explore_mandatory_zone(leader, &c.gadgets, 1);
                next.explore_lookahead_zone(&c.gadgets, &c.check_models, 1, lookahead);
                match commit_step(&mut next, &mut c.gadgets, 1) {
                    CommitStep::Claimed => next,
                    _ => continue,
                }
            }
        };
        let WindowStep::Decode(prepared) = c.prepare_decode(&explored, false, &cache) else { panic!("a decode") };
        let DecodePlan::Build { decoder, syndrome, .. } = prepared.plan else { panic!("nothing is kept") };
        let hypergraph = DecodingHypergraph { vertex_num: decoder.vertex_num, hyperedges: vec![] };
        let subgraph = mock.decode(Some(hypergraph), Some(syndrome)).unwrap();
        let decoder = decoder_of(decoder);
        let report = report_decode(
            leader,
            &subgraph,
            &decoder,
            Some(&explored.committing_cids),
            &prepared.numbered.gadgets,
            &prepared.numbered.mapping,
            &c.error_models,
            &c.types.error_model_types,
            &cache,
        );
        c.dem_log.push_prediction(report.unwrap());
        let sizes = vec![(1, 0); prepared.numbered.mapping.global_gid_of.len()];
        c.commit_window(&explored, &prepared.numbered, &subgraph, &decoder.tables.errors, &sizes).unwrap();
    }
    for gid in [1, 2] {
        assert_eq!(c.gadgets.get(gid).unwrap().state, GadgetState::Committed);
    }
    let predictions = c.drain_dem_predictions();
    for mechanism in [(eid, 0), (eid, 1)] {
        let commits = predictions
            .iter()
            .flat_map(|prediction| prediction.committed_edges.iter())
            .filter(|&&edge| edge == mechanism)
            .count();
        assert_eq!(commits, 1, "late mechanism {mechanism:?} commits exactly once");
    }
}
