//! Controllers, stand-in coordinators and decoders.
use deq_runtime::bin::{
    Check, CheckModel, CheckModelType, Connector, Create, Error, ErrorModel, ErrorModelType, Gadget, GadgetType, Instruction,
    Library, Port, Readout, RemoteCheck, RemoteGadget, RemoteMeasurement,
};
use deq_runtime::bit_vector::{from_bits, from_sparse_indices, set_bit, to_sparse_indices, weight};
use deq_runtime::coordinator::{CoordinatorType, Outcomes, Readouts, ResetRequest};
use deq_runtime::dyn_lib_decoder::compress;
use deq_runtime::hypergraph::{DecodingHypergraph, Hyperedge};
use deq_runtime::mock_coordinator::{MockAnswer, MockCoordinatorState};
use deq_runtime::mock_decoder::{MockDecoderConfig, MockDecoderState};
use deq_runtime::naive_coordinator::{default_id_bias, NaiveAnswer, NaiveCoordinator, NaiveCoordinatorConfig};
use deq_runtime::naive_decoder::{NaiveDecoder, NaiveDecoderConfig};
use deq_runtime::probability::Probability;
use deq_runtime::python_decoder::{decoder_source, default_decoder_class_name, names, BuiltinDecoder, DecoderSource};
use deq_runtime::remote::{Reach, Slot, Target};
use deq_runtime::registry::Registry;
use deq_runtime::relay_bp_decoder::{
    check_matrix_entries, chosen_hyperedges, detector_bits, max_iter, num_sets, pre_iter, set_max_iter, stopping_criterion, stopping_criterion_of, StoppingCriterion,
};
use deq_runtime::static_controller::{
    partial_readouts, Instantiation, Rejected, StaticControllerConfig, StaticControllerInfo, StaticControllerState,
};
use deq_runtime::status::{labelled, labelled_pair, StatusCode};
use deq_runtime::thread_pooling::{decode_failed, load_failed, needs_no_decoder, Checkout, Pool, ThreadPoolingConfig};
use deq_runtime::timing::{syndrome_ready_ns, ArrivalLog, DecodePath, OutcomeArrival, TimingLog, WindowTiming};

fn p(value: f64) -> Probability {
    Probability::from_bits(value.to_bits())
}

fn gadget_type(gtype: u64, inputs: usize, outputs: usize, num_measurements: u64) -> GadgetType {
    GadgetType {
        gtype,
        inputs: vec![1; inputs],
        outputs: vec![1; outputs],
        num_measurements,
        readouts: vec![Readout { measurement_indices: vec![0] }],
        is_free_hop: None,
        propagation: Default::default(),
    }
}

fn gadget(gid: u64, gtype: u64, previous: Option<u64>) -> Instruction {
    let connectors = previous.map(|gid| Connector { gid, port: 0 }).into_iter().collect();
    Instruction { create: Some(Create::Gadget(Gadget { gid, gtype, connectors, modifier: None })) }
}

fn check_model(cid: u64, gid: u64) -> Instruction {
    Instruction { create: Some(Create::CheckModel(CheckModel { cid, ctype: 1, gid, modifier: None })) }
}

fn error_model(eid: u64, cid: u64) -> Instruction {
    Instruction { create: Some(Create::ErrorModel(ErrorModel { eid, etype: 1, cid, modifier: None })) }
}

fn library() -> Library {
    Library {
        port_types: vec![],
        gadget_types: vec![gadget_type(1, 0, 1, 2), gadget_type(2, 1, 0, 1)],
        check_model_types: vec![CheckModelType {
            ctype: 1,
            gtype: 2,
            checks: vec![Check {
                measurements: vec![
                    RemoteMeasurement { remote_gadget: None, measurement_index: 0 },
                    RemoteMeasurement { remote_gadget: Some(0), measurement_index: 0 },
                ],
                naturally_flipped: false,
            }],
            remote_gadgets: vec![RemoteGadget {
                port: Some(Port::Input(0)),
                measurement_bias: 1,
                ..Default::default()
            }],
        }],
        error_model_types: vec![ErrorModelType {
            etype: 1,
            ctype: 1,
            errors: vec![Error {
                checks: vec![RemoteCheck { remote_check_model: None, check_index: 0 }],
                residual: vec![],
                readout_flips: vec![0],
                probability: p(0.1),
            }],
            remote_check_models: vec![],
        }],
        program: vec![gadget(1, 1, None), gadget(2, 2, Some(1)), check_model(1, 2), error_model(1, 1)],
    }
}

// --- static controller -----------------------------------------------------

fn bits(list: &[bool]) -> Outcomes {
    Outcomes { gid: 0, outcomes: Some(from_bits(&list.to_vec())), loss_mask: None }
}

#[test]
fn a_static_program_is_instantiated_under_new_ids() {
    let mut made = Instantiation::new();
    let program = library().program;
    let first = made.request(program[0].clone()).unwrap();
    made.created(&program[0], 11);
    let second = made.request(program[1].clone()).unwrap();
    let Some(Create::Gadget(request)) = &second.create else { panic!("a gadget") };
    assert_eq!((request.gid, request.connectors[0].gid), (2, 11));
    assert!(matches!(first.create, Some(Create::Gadget(_))));
    made.created(&program[1], 12);
    let Some(Create::CheckModel(request)) = made.request(program[2].clone()).unwrap().create else { panic!("a check model") };
    assert_eq!((request.cid, request.gid), (1, 12));
    made.created(&program[2], 21);
    let Some(Create::ErrorModel(request)) = made.request(program[3].clone()).unwrap().create else { panic!("an error model") };
    assert_eq!((request.eid, request.cid), (1, 21));
}

#[test]
fn a_modified_gadget_is_instantiated_with_its_modifier() {
    let made = Instantiation::new();
    let modified = Gadget { gid: 3, gtype: 1, connectors: vec![], modifier: Some(vec![1, 2, 3]) };
    let request = made.request(Instruction { create: Some(Create::Gadget(modified.clone())) }).unwrap();
    assert_eq!(request.create, Some(Create::Gadget(modified)));
}

#[test]
fn outcomes_arrive_in_parts_of_any_size() {
    let info = StaticControllerInfo::new(&library()).unwrap();
    assert_eq!(info.total_measurements, 3);
    let mut state = StaticControllerState::restart(vec![11, 12]);
    let none = state.accept(&info, &bits(&[true])).unwrap();
    assert!(none.requests.is_empty() && !none.complete);
    let both = state.accept(&info, &bits(&[false, true])).unwrap();
    assert!(both.complete);
    assert_eq!(both.first, 0);
    assert_eq!(both.requests.iter().map(|r| r.gid).collect::<Vec<_>>(), vec![11, 12]);
    assert_eq!(both.requests[0].outcomes, Some(from_bits(&vec![true, false])));
    assert_eq!(both.requests[1].outcomes, Some(from_bits(&vec![true])));
    assert!(state.gather().is_err(), "no readouts yet");
    state.record(0, Readouts { gid: 11, readouts: Some(from_bits(&vec![true])), detectors: None });
    state.record(1, Readouts { gid: 12, readouts: Some(from_bits(&vec![false])), detectors: None });
    assert_eq!(state.gather().unwrap().readouts, Some(from_bits(&vec![true, false])));
}

#[test]
fn static_requests_are_refused_with_a_reason() {
    let info = StaticControllerInfo::new(&library()).unwrap();
    let mut state = StaticControllerState::restart(vec![11, 12]);
    let missing = Outcomes { gid: 0, outcomes: None, loss_mask: None };
    assert!(matches!(state.accept(&info, &missing), Err(Rejected::Status(_))));
    assert!(matches!(state.accept(&info, &bits(&[true; 4])), Err(Rejected::TooManyOutcomes)));
    let short = Outcomes { loss_mask: Some(from_bits(&vec![true])), ..bits(&[true, true]) };
    assert!(matches!(state.accept(&info, &short), Err(Rejected::LossLength { outcomes: 2, losses: 1 })));
    assert_eq!(partial_readouts().readouts, Some(from_bits(&vec![])));
    let config = StaticControllerConfig { filepath: String::new(), reset_library: true, reset_decoder_service: false };
    assert_eq!(config.reset_request(), ResetRequest { reset_library: true, reset_decoder_service: false });
}

#[test]
fn lost_outcomes_travel_with_the_rest() {
    let info = StaticControllerInfo::new(&library()).unwrap();
    let mut state = StaticControllerState::restart(vec![11, 12]);
    let kept = Outcomes { loss_mask: Some(from_bits(&vec![false])), ..bits(&[true]) };
    state.accept(&info, &kept).unwrap();
    let lossy = Outcomes { loss_mask: Some(from_bits(&vec![true, false])), ..bits(&[false, true]) };
    let sent = state.accept(&info, &lossy).unwrap();
    assert_eq!(sent.requests[0].loss_mask, Some(from_bits(&vec![false, true])), "earlier outcomes were not lost");
    assert_eq!(sent.requests[1].loss_mask, Some(from_bits(&vec![false])));
    // a shot that starts without a mask goes on without one
    let mut plain = StaticControllerState::restart(vec![11, 12]);
    plain.accept(&info, &bits(&[true])).unwrap();
    assert!(matches!(plain.accept(&info, &lossy), Err(Rejected::Status(_))));
}

// --- mock coordinator ------------------------------------------------------

fn mock() -> MockCoordinatorState {
    let mut state = MockCoordinatorState::new();
    state.load_library(library());
    for instruction in library().program {
        assert!(matches!(state.execute(instruction), MockAnswer::Id(_)));
    }
    state
}

#[test]
fn the_mock_coordinator_resolves_remotes() {
    let state = mock();
    let types = state.get_effective_types().unwrap();
    let check = types.check_model_types.get(1).unwrap();
    assert_eq!(check.remote_gadgets, vec![1]);
    assert_eq!(
        check.checks[0].measurements,
        vec![
            RemoteMeasurement { remote_gadget: None, measurement_index: 0 },
            RemoteMeasurement { remote_gadget: Some(0), measurement_index: 0 },
        ]
    );
    let error = types.error_model_types.get(1).unwrap();
    assert_eq!(error.errors[0].probability, p(0.1));
    assert!(error.remote_check_models.is_empty());
    assert_eq!(state.effective_check_model(1).unwrap().gtype, 2);
    assert_eq!(state.decode(2).gid, 2);
}

#[test]
fn the_mock_coordinator_follows_single_slots() {
    let state = mock();
    let slots = vec![
        Some(Slot::Via { previous: None, port: Some(Port::Input(0)) }),
        Some(Slot::Known(Target::CheckModel(7))),
        None,
        Some(Slot::Via { previous: Some(0), port: Some(Port::Input(0)) }),
    ];
    assert_eq!(state.expand_remote_gadget(&slots, 2, 0), Reach::To(Target::Gadget(1)));
    assert_eq!(state.expand_remote_check_model(&slots, 2, 1), Reach::To(Target::CheckModel(7)));
    assert_eq!(state.expand_remote_gadget(&slots, 2, 2), Reach::Removed);
    assert_eq!(state.expand_remote_gadget(&slots, 2, 3), Reach::Fault, "the first gadget has no input");
}

#[test]
fn sparse_bits_are_packed() {
    let bits = from_sparse_indices(10, &[9, 1]);
    assert_eq!(bits, from_bits(&vec![false, true, false, false, false, false, false, false, false, true]));
    assert_eq!(bits.data, vec![0b0100_0000, 0b0100_0000]);
    assert_eq!(to_sparse_indices(&bits), vec![1, 9]);
    assert_eq!(weight(&bits), 2);
}

#[test]
fn the_mock_coordinator_forgets() {
    let mut state = mock();
    state.reset(ResetRequest { reset_library: false, reset_decoder_service: false });
    assert!(matches!(state.execute(gadget(0, 1, None)), MockAnswer::Id(1)));
    state.clear();
    assert!(matches!(state.execute(gadget(0, 1, None)), MockAnswer::UnknownType(1)));
}

// --- naive coordinator -----------------------------------------------------

#[test]
fn the_naive_coordinator_answers_with_random_readouts() {
    let config = NaiveCoordinatorConfig { disable_random_readouts: false, id_bias: default_id_bias() };
    let mut c = NaiveCoordinator::new(config);
    assert_eq!(c.load_library(&library()), Ok(()));
    let mut seen = [false, false];
    for k in 0..64 {
        let NaiveAnswer::Id(gid) = c.execute(&gadget(0, 1, None)) else { panic!("a new gadget") };
        assert_eq!(gid, 1001 + k);
        let readouts = c.decode(gid).unwrap().readouts.unwrap();
        assert_eq!(readouts.size, 1);
        seen[readouts.data[0] as usize >> 7] = true;
    }
    assert_eq!(seen, [true, true], "both values are drawn");
    assert_eq!(c.wait_for_detectors(1).gid, 1);
}

#[test]
fn the_naive_coordinator_can_be_quiet() {
    let mut c = NaiveCoordinator::new(NaiveCoordinatorConfig { disable_random_readouts: true, id_bias: 5 });
    assert_eq!(c.load_library(&library()), Ok(()));
    assert!(c.load_library(&library()).is_err());
    for _ in 0..16 {
        let NaiveAnswer::Id(gid) = c.execute(&gadget(0, 1, None)) else { panic!("a new gadget") };
        assert_eq!(c.decode(gid).unwrap().readouts, Some(from_bits(&vec![false])));
    }
    assert!(matches!(c.execute(&gadget(100, 1, None)), NaiveAnswer::Id(100)));
    assert!(matches!(c.execute(&gadget(100, 1, None)), NaiveAnswer::InUse(100)));
    assert!(matches!(c.execute(&gadget(0, 9, None)), NaiveAnswer::Status(_)));
    assert_eq!(c.decode(999).unwrap_err().code, StatusCode::NotFound);
    c.reset(ResetRequest { reset_library: true, reset_decoder_service: false });
    assert!(matches!(c.execute(&gadget(0, 1, None)), NaiveAnswer::Status(_)));
}

#[test]
fn coordinators_have_names() {
    assert_eq!(CoordinatorType::from_name("window"), Some(CoordinatorType::Window));
    assert_eq!(CoordinatorType::from_name("nothing"), None);
    assert!(!CoordinatorType::Naive.needs_decoder() && CoordinatorType::Monolithic.needs_decoder());
    assert_eq!(CoordinatorType::variant_names().len(), 3);
    assert!(CoordinatorType::config_help().is_empty());
    for name in CoordinatorType::variant_names() {
        assert!(CoordinatorType::from_name(name).is_some());
    }
}

// --- decoders --------------------------------------------------------------

fn hypergraph() -> DecodingHypergraph {
    DecodingHypergraph {
        vertex_num: 3,
        hyperedges: vec![
            Hyperedge { vertices: vec![0, 1], probability: p(0.1) },
            Hyperedge { vertices: vec![], probability: p(0.2) },
            Hyperedge { vertices: vec![2], probability: p(0.3) },
        ],
    }
}

#[test]
fn hyperedges_are_laid_out_row_by_row() {
    let rows = compress(&hypergraph());
    assert_eq!(rows.vertex_num, 3);
    assert_eq!(rows.edge_offsets, vec![0, 2, 2, 3]);
    assert_eq!(rows.edge_vertices, vec![0, 1, 2]);
    assert_eq!(rows.edge_probs, vec![p(0.1), p(0.2), p(0.3)]);
}

#[test]
fn a_pool_hands_instances_out_and_takes_them_back() {
    let mut pool: Pool<u32> = Pool::new();
    let hid = pool.load(hypergraph());
    assert!(matches!(pool.checkout(hid), Ok(Checkout::Build)));
    assert!(!pool.try_reset(true), "a decode is running");
    pool.give_back(hid, 77);
    pool.end();
    assert!(matches!(pool.checkout(hid), Ok(Checkout::Reuse(77))));
    pool.give_back(hid, 77);
    pool.end();
    assert!(pool.checkout(hid + 1).is_err());
    pool.begin();
    assert!(!pool.try_reset(false));
    pool.end();
    assert!(pool.try_reset(true));
    assert!(pool.checkout(hid).is_err(), "the hypergraph is gone");
    assert_ne!(decode_failed().message, load_failed(3).message);
    assert_eq!(ThreadPoolingConfig { parallel: 0 }.num_threads(), None);
    assert_eq!(ThreadPoolingConfig { parallel: 4 }.num_threads(), Some(4));
}

#[test]
fn an_empty_syndrome_needs_no_decoder() {
    assert!(needs_no_decoder(&Some(from_bits(&vec![false, false]))));
    assert!(!needs_no_decoder(&Some(from_bits(&vec![false, true]))));
    let mut bits = from_sparse_indices(10, &[3]);
    assert!(!needs_no_decoder(&Some(bits.clone())));
    set_bit(&mut bits, 3, false);
    assert!(needs_no_decoder(&Some(bits)));
}

#[test]
fn the_mock_decoder_answers_as_told() {
    let mut state = MockDecoderState::new();
    let syndrome = from_bits(&vec![true, false, false]);
    assert_eq!(state.decode(Some(hypergraph()), Some(syndrome.clone())), Ok(vec![]));
    state.set_response(syndrome.data.clone(), vec![2, 0]);
    assert_eq!(state.decode(Some(hypergraph()), Some(syndrome.clone())), Ok(vec![2, 0]));
    let hid = state.load_hypergraph(hypergraph());
    assert_eq!(state.decode_loaded(hid, Some(syndrome.clone())), Ok(vec![2, 0]));
    assert!(state.decode_loaded(hid + 1, Some(syndrome.clone())).is_err());
    assert!(state.decode(None, Some(syndrome.clone())).is_err());
    state.reset(true);
    assert!(state.decode_loaded(hid, Some(syndrome)).is_err());
    assert_eq!(state.reset_count, 1);
    assert_eq!(MockDecoderConfig { decode_delay_ms: 0 }.delay(), None);
    assert_eq!(MockDecoderConfig { decode_delay_ms: 5 }.delay(), Some(5));
}

#[test]
fn the_naive_decoder_corrects_nothing() {
    let decoder = NaiveDecoder::new(NaiveDecoderConfig {});
    let factor = decoder.decode(12);
    assert!(factor.subgraph.is_empty());
    assert_eq!(factor.compute_ns, 12);
}

#[test]
fn relay_stops_as_configured() {
    assert_eq!((max_iter(), pre_iter(), num_sets(), set_max_iter()), (200, 80, 100, 60));
    assert_eq!(stopping_criterion(), "NConv(stop_after=5)");
    assert!(matches!(stopping_criterion_of(&stopping_criterion()), Some(StoppingCriterion::NConv { stop_after: 5 })));
    assert!(matches!(stopping_criterion_of("All"), Some(StoppingCriterion::All)));
    assert!(matches!(stopping_criterion_of("PreIter"), Some(StoppingCriterion::PreIter)));
    assert!(matches!(stopping_criterion_of("NConv(stop_after=12)"), Some(StoppingCriterion::NConv { stop_after: 12 })));
    assert!(stopping_criterion_of("NConv(stop_after=)").is_none());
    assert!(stopping_criterion_of("never").is_none());
}

#[test]
fn relay_works_on_a_check_matrix() {
    assert_eq!(check_matrix_entries(&hypergraph()), vec![(0, 0), (1, 0), (2, 2)]);
    assert_eq!(detector_bits(&from_sparse_indices(9, &[8, 1])), vec![0, 1, 0, 0, 0, 0, 0, 0, 1]);
    assert_eq!(chosen_hyperedges(&vec![1, 0, 2, 1]), vec![0, 3]);
}

#[test]
fn python_decoders_are_found_by_name() {
    assert_eq!(default_decoder_class_name(), "Decoder");
    assert!(matches!(decoder_source("@relay_bp_decoder"), DecoderSource::Builtin(BuiltinDecoder::RelayBp)));
    assert!(matches!(decoder_source("@missing"), DecoderSource::Unknown(ref text) if text.contains("'@missing'")));
    assert!(matches!(decoder_source("decoder.py"), DecoderSource::File));
    for name in names() {
        let DecoderSource::Builtin(decoder) = decoder_source(&format!("@{name}")) else { panic!("{name} comes along") };
        assert_eq!(decoder.virtual_filename(), format!("@{name}"));
    }
}

// --- timing and messages ---------------------------------------------------

#[test]
fn timings_are_numbered_and_drained() {
    let timing = |gid| WindowTiming {
        seq: 0,
        window_gids: vec![gid],
        path: Some(DecodePath::CacheHit),
        concurrent_decodes: 1,
        num_committing: 1,
        num_gadgets: 1,
        num_vertices: 0,
        num_hyperedges: 0,
        syndrome_weight: 0,
        syndrome_bytes: 0,
        hypergraph_bytes: 0,
        correction_weight: 0,
        parity_factor_bytes: 0,
        cache_size: 0,
        leader_arrived_ns: 0,
        mandatory_ready_ns: 0,
        syndrome_ready_ns: 0,
        decode_start_ns: 0,
        decode_end_ns: 0,
        explore_ns: 0,
        build_ns: 0,
        merge_ns: 0,
        compact_ns: 0,
        load_ns: 0,
        decode_ns: 0,
        decoder_compute_ns: 0,
    };
    let mut log = TimingLog::new();
    log.push(timing(4));
    log.push(timing(5));
    let records = log.drain();
    assert_eq!(records.iter().map(|r| (r.seq, r.window_gids[0])).collect::<Vec<_>>(), vec![(0, 4), (1, 5)]);
    assert!(log.drain().is_empty());
    log.reset();
    log.push(timing(6));
    assert_eq!(log.drain()[0].seq, 0);
}

#[test]
fn only_first_arrivals_are_noted() {
    let mut log = ArrivalLog::new();
    log.note(4, 100, true);
    log.note(4, 150, false);
    log.note(2, 200, true);
    let expected = vec![OutcomeArrival { gid: 4, received_ns: 100 }, OutcomeArrival { gid: 2, received_ns: 200 }];
    assert_eq!(log.drain(), expected);
    assert!(log.drain().is_empty());
    log.note(7, 300, true);
    log.reset();
    assert!(log.drain().is_empty());
}

#[test]
fn a_window_is_ready_with_its_last_syndrome() {
    let mut times = Registry::new();
    times.insert(1, 30);
    times.insert(2, 50);
    times.insert(3, 40);
    assert_eq!(syndrome_ready_ns(&times, &vec![1, 3]), 40);
    assert_eq!(syndrome_ready_ns(&times, &vec![3, 9, 2]), 50);
    assert_eq!(syndrome_ready_ns(&times, &vec![9]), 0);
    assert_eq!(syndrome_ready_ns(&times, &vec![]), 0);
}

#[test]
fn messages_show_numbers_in_decimal() {
    assert_eq!(labelled("gid=", 0), "gid=0");
    assert_eq!(labelled("gid=", u64::MAX), "gid=18446744073709551615");
    assert_eq!(labelled_pair("a=", 10, " b=", 7), "a=10 b=7");
}
