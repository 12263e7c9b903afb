//! A program that is decoded in one piece.
use deq_runtime::bin::{
    Check, CheckModel, CheckModelType, Connector, Create, Error, ErrorModel, ErrorModelModifier, ErrorModelType, Gadget,
    GadgetType, Instruction, Library, Port, PortType, ProbabilityModifier, Readout, RemoteCheck, RemoteCheckModel,
    RemoteGadget, RemoteMeasurement,
};
use deq_runtime::bit_vector::{from_bits, BitVector};
use deq_runtime::coordinator::{Outcomes, ResetRequest};
use deq_runtime::decode_plan::{check_decode, report_decode, DecodePlan, DecoderCache};
use deq_runtime::dem::DemDetectorGroup;
use deq_runtime::detectors::get_gadget_detectors;
use deq_runtime::expansion::ExpandStep;
use deq_runtime::monolithic::{default_true, MonolithicCoordinator, MonolithicCoordinatorConfig};
use deq_runtime::monolithic_decode::{batch_expand, expanded_gadgets, owners_known};
use deq_runtime::prediction::{check_parity_factor, get_syndrome, global_subgraph_of};
use deq_runtime::prepare::{part_corrections, prepare_part};
use deq_runtime::probability::Probability;
use deq_runtime::relative::RelativeMapping;
use deq_runtime::remote::Unresolved;
use deq_runtime::status::StatusCode;
use deq_runtime::subgraph::get_subgraph;

fn p(value: f64) -> Probability {
    Probability::from_bits(value.to_bits())
}

fn config() -> MonolithicCoordinatorConfig {
    MonolithicCoordinatorConfig {
        assert_parity_factor: false,
        merge_hyperedges: true,
        async_expand: false,
        persistent_decoder: default_true(),
        loss_random_imputation: false,
        loss_random_imputation_seed: None,
    }
}

fn source() -> GadgetType {
    GadgetType { gtype: 1, inputs: vec![], outputs: vec![1], num_measurements: 1, readouts: vec![], ..Default::default() }
}

fn sink() -> GadgetType {
    GadgetType {
        gtype: 2,
        inputs: vec![1],
        outputs: vec![],
        num_measurements: 1,
        readouts: vec![Readout { measurement_indices: vec![0] }],
        is_free_hop: None,
        propagation: Default::default(),
    }
}

/// One check: the outcome of the gadget against that of the gadget at its input.
fn comparing_checks() -> CheckModelType {
    CheckModelType {
        ctype: 1,
        gtype: 2,
        checks: vec![Check {
            measurements: vec![
                RemoteMeasurement { remote_gadget: None, measurement_index: 0 },
                RemoteMeasurement { remote_gadget: Some(0), measurement_index: 0 },
            ],
            naturally_flipped: false,
        }],
        remote_gadgets: vec![RemoteGadget {
            port: Some(Port::Input(0)),
            previous_remote_gadget: None,
            absolute_gid: None,
            expecting_gtype: 0,
            measurement_bias: 0,
        }],
    }
}

fn readout_errors() -> ErrorModelType {
    let local = RemoteCheck { remote_check_model: None, check_index: 0 };
    ErrorModelType {
        etype: 1,
        ctype: 1,
        errors: vec![
            Error { checks: vec![local], residual: vec![], readout_flips: vec![0], probability: p(0.1) },
            Error { checks: vec![local], residual: vec![], readout_flips: vec![], probability: p(0.2) },
        ],
        remote_check_models: vec![],
    }
}

fn library() -> Library {
    Library {
        port_types: vec![PortType { ptype: 1, observables: 0 }],
        gadget_types: vec![source(), sink()],
        check_model_types: vec![comparing_checks()],
        error_model_types: vec![readout_errors()],
        program: vec![],
    }
}

fn gadget(gid: u64, gtype: u64, connectors: Vec<Connector>) -> Instruction {
    Instruction { create: Some(Create::Gadget(Gadget { gid, gtype, connectors, modifier: None })) }
}

fn check_model(cid: u64, ctype: u64, gid: u64) -> Instruction {
    Instruction { create: Some(Create::CheckModel(CheckModel { cid, ctype, gid, modifier: None })) }
}

fn error_model(eid: u64, etype: u64, cid: u64) -> Instruction {
    Instruction { create: Some(Create::ErrorModel(ErrorModel { eid, etype, cid, modifier: None })) }
}

fn outcomes(gid: u64, bits: &[bool]) -> Outcomes {
    Outcomes { gid, outcomes: Some(from_bits(&bits.to_vec())), loss_mask: None }
}

fn coordinator() -> MonolithicCoordinator {
    let mut c = MonolithicCoordinator::new(config());
    assert_eq!(c.load_library(library()), Ok(()));
    c
}

/// Two connected gadgets with a check model and an error model.
fn program() -> MonolithicCoordinator {
    let mut c = coordinator();
    assert_eq!(c.try_execute(gadget(0, 1, vec![])), Some(Ok(1)));
    assert_eq!(c.try_execute(gadget(0, 2, vec![Connector { gid: 1, port: 0 }])), Some(Ok(2)));
    assert_eq!(c.try_execute(check_model(0, 1, 2)), Some(Ok(1)));
    assert_eq!(c.try_execute(error_model(0, 1, 1)), Some(Ok(1)));
    c
}

#[test]
fn a_type_is_loaded_once() {
    let mut c = coordinator();
    let again = Library { gadget_types: vec![source()], ..Default::default() };
    let status = c.load_library(again).unwrap_err();
    assert_eq!(status.code, StatusCode::AlreadyExists);
    assert!(status.message.contains("gtype=1"), "{}", status.message);
}

#[test]
fn unknown_types_and_instances_are_refused() {
    let mut c = coordinator();
    let status = c.try_execute(gadget(0, 9, vec![])).unwrap().unwrap_err();
    assert_eq!((status.code, status.message.as_str()), (StatusCode::NotFound, "gtype=9"));
    let status = c.try_execute(check_model(0, 9, 1)).unwrap().unwrap_err();
    assert_eq!((status.code, status.message.as_str()), (StatusCode::NotFound, "ctype=9"));
    let status = c.try_execute(error_model(0, 9, 1)).unwrap().unwrap_err();
    assert_eq!((status.code, status.message.as_str()), (StatusCode::NotFound, "etype=9"));
    let status = c.try_execute(check_model(7, 1, 5)).unwrap().unwrap_err();
    assert_eq!(status.code, StatusCode::InvalidArgument);
    assert_eq!(status.message, "cid=7 binding to unknown gid=5");
    let status = c.try_execute(error_model(8, 1, 5)).unwrap().unwrap_err();
    assert_eq!(status.code, StatusCode::InvalidArgument);
    assert_eq!(status.message, "eid=8 attaching to unknown cid=5");
    let status = c.try_execute(Instruction { create: None }).unwrap().unwrap_err();
    assert_eq!((status.code, status.message.as_str()), (StatusCode::InvalidArgument, "unknown instruction"));
}

#[test]
fn broken_instructions_are_not_executed() {
    let mut c = program();
    // an output is connected once
    assert_eq!(c.try_execute(gadget(0, 2, vec![Connector { gid: 1, port: 0 }])), None);
    // there is no such output
    assert_eq!(c.try_execute(gadget(0, 2, vec![Connector { gid: 1, port: 4 }])), None);
    // every input is connected
    assert_eq!(c.try_execute(gadget(0, 2, vec![])), None);
    // a gadget has one check model, of a type made for it
    assert_eq!(c.try_execute(check_model(0, 1, 2)), None);
    assert_eq!(c.try_execute(check_model(0, 1, 1)), None);
    assert!(c.gadgets.get(3).is_none());
}

#[test]
fn ids_are_assigned_in_order_and_can_be_chosen() {
    let mut c = coordinator();
    assert_eq!(c.try_execute(gadget(2, 1, vec![])), Some(Ok(2)));
    assert_eq!(c.try_execute(gadget(0, 1, vec![])), Some(Ok(1)));
    assert_eq!(c.try_execute(gadget(0, 1, vec![])), Some(Ok(3)));
}

#[test]
fn the_last_outcomes_complete_the_part() {
    let mut c = program();
    let first = c.begin_decode(outcomes(1, &[true]), None).unwrap();
    assert!(!first.is_final_gadget);
    assert!(first.readouts.is_empty());
    let second = c.begin_decode(outcomes(2, &[false]), None).unwrap();
    assert!(second.is_final_gadget);
    assert_eq!(second.readouts, vec![false]);
}

#[test]
fn an_open_output_keeps_the_part_incomplete() {
    let mut c = coordinator();
    assert_eq!(c.try_execute(gadget(0, 1, vec![])), Some(Ok(1)));
    assert!(!c.begin_decode(outcomes(1, &[true]), None).unwrap().is_final_gadget);
    assert!(get_subgraph(&c.gadgets, 1).is_none());
    assert!(c.take_part(1).is_none());
    // a new peer closes it
    assert_eq!(c.try_execute(gadget(0, 2, vec![Connector { gid: 1, port: 0 }])), Some(Ok(2)));
    assert!(c.begin_decode(outcomes(2, &[true]), None).unwrap().is_final_gadget);
    assert_eq!(get_subgraph(&c.gadgets, 1).unwrap().sorted_ids(), vec![1, 2]);
}

#[test]
fn separate_parts_complete_separately() {
    let mut c = program();
    assert_eq!(c.try_execute(gadget(0, 1, vec![])), Some(Ok(3)));
    assert_eq!(c.try_execute(gadget(0, 2, vec![Connector { gid: 3, port: 0 }])), Some(Ok(4)));
    assert!(!c.begin_decode(outcomes(1, &[false]), None).unwrap().is_final_gadget);
    assert!(!c.begin_decode(outcomes(3, &[false]), None).unwrap().is_final_gadget);
    assert!(c.begin_decode(outcomes(4, &[false]), None).unwrap().is_final_gadget);
    let part = c.take_part(4).unwrap();
    assert_eq!(part.gids, vec![3, 4]);
    assert!(c.gadgets.get(3).is_none());
    assert!(c.gadgets.get(1).is_some());
    assert!(c.begin_decode(outcomes(2, &[false]), None).unwrap().is_final_gadget);
}

#[test]
fn decode_requests_are_refused_with_a_reason() {
    let mut c = program();
    let status = c.begin_decode(outcomes(9, &[true]), None).unwrap_err();
    assert_eq!((status.code, status.message.as_str()), (StatusCode::NotFound, "gid=9"));
    let missing = Outcomes { gid: 1, outcomes: None, loss_mask: None };
    let status = c.begin_decode(missing, None).unwrap_err();
    assert_eq!((status.code, status.message.as_str()), (StatusCode::InvalidArgument, "missing outcomes"));
    c.begin_decode(outcomes(1, &[true]), None).unwrap();
    let status = c.begin_decode(outcomes(1, &[true]), None).unwrap_err();
    assert_eq!((status.code, status.message.as_str()), (StatusCode::AlreadyExists, "gid=1 outcomes loaded"));
}

#[test]
fn requests_with_unreadable_outcomes_are_recognised() {
    let c = program();
    assert!(c.accepts_outcomes(&outcomes(2, &[true])));
    assert!(!c.accepts_outcomes(&outcomes(2, &[])), "the readout needs an outcome");
    let torn = Outcomes { gid: 2, outcomes: Some(BitVector { size: 9, data: vec![0] }), loss_mask: None };
    assert!(!c.accepts_outcomes(&torn));
    let mask = Outcomes {
        gid: 2,
        outcomes: Some(from_bits(&vec![true])),
        loss_mask: Some(from_bits(&vec![true, false])),
    };
    assert!(!c.accepts_outcomes(&mask));
}

#[test]
fn a_decode_goes_from_outcomes_to_corrections() {
    let mut c = program();
    c.begin_decode(outcomes(1, &[true]), None).unwrap();
    c.begin_decode(outcomes(2, &[false]), None).unwrap();
    let mut part = c.take_part(2).unwrap();
    assert!(owners_known(&part));
    assert!(batch_expand(&mut part, &mut c.dem_log).is_none());
    let mut cache = DecoderCache::new(true, false);
    let prepared = prepare_part(&part, &c.types.check_model_types, &c.types.error_model_types, true, &cache).unwrap();
    assert_eq!(prepared.syndrome, from_bits(&vec![true]), "the two outcomes differ");
    let DecodePlan::Build { key, decoder, syndrome, .. } = prepared.plan else { panic!("nothing is kept yet") };
    assert_eq!(syndrome, from_bits(&vec![true]));
    // the two mechanisms have the same detectors, so they are one hyperedge
    assert_eq!(decoder.decoder_vertices, vec![vec![0]]);
    assert_eq!(decoder.tables.errors.len(), 1);
    assert_eq!(decoder.tables.errors[0].error_index, 1, "the likelier one stands for both");
    let subgraph = vec![0];
    assert_eq!(check_decode(&decoder.decoder_vertices, &subgraph, &syndrome), Some(true));
    assert_eq!(check_decode(&decoder.decoder_vertices, &vec![], &syndrome), Some(false));
    assert_eq!(check_decode(&decoder.decoder_vertices, &vec![7], &syndrome), None);
    let sizes = vec![(0, 0), (0, 1)];
    let frames = part_corrections(
        &part,
        &c.types.error_model_types,
        &prepared.numbered,
        &subgraph,
        &decoder.tables.errors,
        &sizes,
    )
    .unwrap();
    assert_eq!(frames[1].readout_list(), vec![false], "the likelier mechanism flips no readout");
    assert_eq!(
        global_subgraph_of(&prepared.numbered.mapping, &decoder.tables.errors, &subgraph),
        vec![(1, 1)]
    );
    let row = cache.keep(key.unwrap(), 42, decoder);
    let report = report_decode(
        2,
        &subgraph,
        &cache.rows[row],
        None,
        &prepared.numbered.gadgets,
        &prepared.numbered.mapping,
        &part.error_models,
        &c.types.error_model_types,
        &cache,
    )
    .unwrap();
    assert_eq!(report.fired, vec![(1, 0), (1, 1)]);
    assert_eq!(report.committed_edges, vec![(1, 0), (1, 1)]);
    assert!(report.fired_buffer.is_empty() && report.buffer_edges.is_empty());
    assert_eq!(report.flips, vec![(1, 0)]);
    assert_eq!(report.window_gids, vec![1, 2]);
    // the same window again: the kept decoder serves it
    let again = prepare_part(&part, &c.types.check_model_types, &c.types.error_model_types, true, &cache).unwrap();
    let DecodePlan::Reuse { row, syndrome } = again.plan else { panic!("a decoder is kept") };
    assert_eq!(cache.rows[row].hid, 42);
    assert_eq!(syndrome, from_bits(&vec![true]));
    cache.clear();
    let anew = prepare_part(&part, &c.types.check_model_types, &c.types.error_model_types, false, &cache).unwrap();
    assert!(matches!(anew.plan, DecodePlan::Build { key: None, .. }));
}

#[test]
fn unmerged_mechanisms_keep_their_own_hyperedges() {
    let mut c = program();
    c.begin_decode(outcomes(1, &[true]), None).unwrap();
    c.begin_decode(outcomes(2, &[true]), None).unwrap();
    let mut part = c.take_part(2).unwrap();
    assert!(batch_expand(&mut part, &mut c.dem_log).is_none());
    let cache = DecoderCache::new(false, false);
    let prepared = prepare_part(&part, &c.types.check_model_types, &c.types.error_model_types, true, &cache).unwrap();
    assert_eq!(prepared.syndrome, from_bits(&vec![false]));
    let DecodePlan::Build { decoder, .. } = prepared.plan else { panic!("nothing is kept yet") };
    assert_eq!(decoder.tables.hyperedge_vertices, vec![vec![0], vec![0]]);
    let sizes = vec![(0, 0), (0, 1)];
    let frames = part_corrections(
        &part,
        &c.types.error_model_types,
        &prepared.numbered,
        &vec![0, 1],
        &decoder.tables.errors,
        &sizes,
    )
    .unwrap();
    assert_eq!(frames[1].readout_list(), vec![true]);
    assert!(frames[0].residual_list().is_empty());
    // a flip of a readout that is not there
    assert!(part_corrections(
        &part,
        &c.types.error_model_types,
        &prepared.numbered,
        &vec![0],
        &decoder.tables.errors,
        &vec![(0, 0), (0, 0)],
    )
    .is_none());
    assert!(check_parity_factor(&decoder.decoder_vertices, &vec![0, 1], &prepared.syndrome));
}

#[test]
fn detectors_of_a_part_are_its_syndrome() {
    let mut c = program();
    c.begin_decode(outcomes(1, &[true]), None).unwrap();
    c.begin_decode(outcomes(2, &[false]), None).unwrap();
    let mut part = c.take_part(2).unwrap();
    assert!(batch_expand(&mut part, &mut c.dem_log).is_none());
    let list = expanded_gadgets(&part, &c.types.check_model_types).unwrap();
    let mapping = RelativeMapping::try_new(&list).unwrap();
    let syndrome =
        get_syndrome(&mapping.global_cid_of, &part.gadgets, &part.check_models, &c.types.check_model_types).unwrap();
    let detectors = get_gadget_detectors(2, &c.types.check_model_types, &part.gadgets, &part.check_models).unwrap();
    assert_eq!(detectors, syndrome);
    assert_eq!(detectors, from_bits(&vec![true]));
    let none = get_gadget_detectors(1, &c.types.check_model_types, &part.gadgets, &part.check_models).unwrap();
    assert_eq!(none.size, 0, "no check model is bound");
    assert_eq!(c.wait_for_detectors(2).size, 0);
}

#[test]
fn a_bias_shifts_remote_outcomes() {
    let mut c = MonolithicCoordinator::new(config());
    let mut wide = source();
    wide.num_measurements = 3;
    let mut biased = comparing_checks();
    biased.remote_gadgets[0].measurement_bias = 2;
    let types = Library { gadget_types: vec![wide, sink()], check_model_types: vec![biased], ..Default::default() };
    assert_eq!(c.load_library(types), Ok(()));
    assert_eq!(c.try_execute(gadget(0, 1, vec![])), Some(Ok(1)));
    assert_eq!(c.try_execute(gadget(0, 2, vec![Connector { gid: 1, port: 0 }])), Some(Ok(2)));
    assert_eq!(c.try_execute(check_model(0, 1, 2)), Some(Ok(1)));
    c.begin_decode(outcomes(1, &[false, false, true]), None).unwrap();
    c.begin_decode(outcomes(2, &[false]), None).unwrap();
    let mut part = c.take_part(1).unwrap();
    assert!(batch_expand(&mut part, &mut c.dem_log).is_none());
    let detectors = get_gadget_detectors(2, &c.types.check_model_types, &part.gadgets, &part.check_models).unwrap();
    assert_eq!(detectors, from_bits(&vec![true]), "outcome 0 with a bias of 2 is outcome 2");
}

#[test]
fn models_are_announced_as_they_are_created() {
    let mut c = coordinator();
    c.set_dem_enabled(true);
    c.try_execute(gadget(0, 1, vec![]));
    c.try_execute(gadget(0, 2, vec![Connector { gid: 1, port: 0 }]));
    assert!(c.drain_dem(false).detector_groups.is_empty());
    c.try_execute(check_model(0, 1, 2));
    assert_eq!(c.drain_dem(false).detector_groups, vec![DemDetectorGroup { gid: 2, cid: 1, count: 1 }]);
    c.try_execute(error_model(0, 1, 1));
    let drained = c.drain_dem(false);
    assert_eq!(drained.edges.len(), 2);
    assert_eq!((drained.edges[0].gid, drained.edges[0].eid, drained.edges[0].error_index), (2, 1, 0));
    assert_eq!(drained.edges[1].detectors, vec![(1, 0)]);
    assert!(c.drain_dem(true).edges.is_empty());
}

/// A mechanism of the second gadget that also fires a check of the first one.
fn remote_library() -> Library {
    let mut types = library();
    types.check_model_types.push(CheckModelType {
        ctype: 2,
        gtype: 1,
        checks: vec![Check {
            measurements: vec![RemoteMeasurement { remote_gadget: None, measurement_index: 0 }],
            naturally_flipped: true,
        }],
        remote_gadgets: vec![],
    });
    types.error_model_types[0].errors.truncate(1);
    types.error_model_types[0].errors[0].checks.push(RemoteCheck { remote_check_model: Some(0), check_index: 0 });
    types.error_model_types[0].remote_check_models.push(RemoteCheckModel {
        port: Some(Port::Input(0)),
        ..Default::default()
    });
    types
}

#[test]
fn a_missed_report_is_made_up_at_the_end() {
    let mut c = MonolithicCoordinator::new(config());
    assert_eq!(c.load_library(remote_library()), Ok(()));
    c.set_dem_enabled(true);
    c.try_execute(gadget(0, 1, vec![]));
    c.try_execute(gadget(0, 2, vec![Connector { gid: 1, port: 0 }]));
    c.try_execute(check_model(0, 2, 1));
    c.try_execute(check_model(0, 1, 2));
    c.try_execute(error_model(0, 1, 2));
    assert!(c.drain_dem(false).edges.is_empty(), "the remote check model is not resolved");
    // the resolution was stored, but its report was missed
    c.error_models.get_mut(1).expanded_remote_check_models = Some(vec![]);
    assert!(c.drain_dem(true).edges.is_empty(), "cut short");
    c.error_models.get_mut(1).expanded_remote_check_models = Some(vec![Some(1)]);
    assert!(c.drain_dem(false).edges.is_empty());
    let drained = c.drain_dem(true);
    assert_eq!(drained.edges.len(), 1);
    assert_eq!(drained.edges[0].detectors, vec![(2, 0), (1, 0)]);
}

#[test]
fn expansion_reports_resolutions_to_the_log() {
    let mut c = MonolithicCoordinator::new(config());
    assert_eq!(c.load_library(remote_library()), Ok(()));
    c.set_dem_enabled(true);
    c.try_execute(gadget(0, 1, vec![]));
    c.try_execute(gadget(0, 2, vec![Connector { gid: 1, port: 0 }]));
    c.try_execute(check_model(0, 2, 1));
    c.try_execute(check_model(0, 1, 2));
    c.try_execute(error_model(0, 1, 2));
    c.begin_decode(outcomes(1, &[false]), None).unwrap();
    c.begin_decode(outcomes(2, &[false]), None).unwrap();
    let mut part = c.take_part(1).unwrap();
    assert!(batch_expand(&mut part, &mut c.dem_log).is_none());
    assert_eq!(c.drain_dem(false).edges[0].detectors, vec![(2, 0), (1, 0)]);
    let cache = DecoderCache::new(true, false);
    let prepared = prepare_part(&part, &c.types.check_model_types, &c.types.error_model_types, true, &cache).unwrap();
    assert_eq!(prepared.syndrome, from_bits(&vec![true, false]), "the first check is naturally flipped");
    let DecodePlan::Build { decoder, .. } = prepared.plan else { panic!("nothing is kept yet") };
    assert_eq!(decoder.decoder_vertices, vec![vec![0, 1]]);
}

#[test]
fn modifiers_that_do_not_fit_are_not_recorded() {
    let mut c = program();
    c.set_dem_enabled(true);
    let too_many = ErrorModelModifier {
        probability_modifier: Some(ProbabilityModifier {
            probabilities: vec![p(0.1), p(0.2), p(0.3)],
            sparse_indices: vec![],
            sparse_probabilities: vec![],
        }),
        reroute_remote_check_models: vec![],
    };
    let request = ErrorModel { eid: 0, etype: 1, cid: 1, modifier: Some(too_many) };
    assert_eq!(c.try_execute(Instruction { create: Some(Create::ErrorModel(request)) }), None);
}

#[test]
fn reset_forgets_the_program_and_the_types_if_asked() {
    let mut c = program();
    c.reset(ResetRequest { reset_library: false, reset_decoder_service: false });
    assert!(c.gadgets.get(1).is_none());
    assert_eq!(c.try_execute(gadget(0, 1, vec![])), Some(Ok(1)), "ids start again");
    c.reset(ResetRequest { reset_library: true, reset_decoder_service: false });
    assert_eq!(c.try_execute(gadget(0, 1, vec![])).unwrap().unwrap_err().code, StatusCode::NotFound);
}

#[test]
fn models_are_expanded_one_by_one() {
    let mut types = remote_library();
    types.check_model_types[1].remote_gadgets.push(RemoteGadget { port: Some(Port::Output(0)), ..Default::default() });
    let mut c = MonolithicCoordinator::new(config());
    assert_eq!(c.load_library(types), Ok(()));
    c.set_dem_enabled(true);
    c.try_execute(gadget(0, 1, vec![]));
    c.try_execute(check_model(0, 2, 1));
    assert_eq!(c.expand_check_model(9), ExpandStep::Gone);
    assert_eq!(c.expand_error_model(9), ExpandStep::Gone);
    let open = Unresolved::Port(Connector { gid: 1, port: 0 });
    assert_eq!(c.expand_check_model(1), ExpandStep::Waits(open), "the output leads nowhere");
    assert_eq!(c.part_expanded(1), None, "the part is open");
    c.try_execute(gadget(0, 2, vec![Connector { gid: 1, port: 0 }]));
    c.try_execute(check_model(0, 1, 2));
    c.try_execute(error_model(0, 1, 2));
    assert_eq!(c.part_expanded(1), Some(false));
    assert_eq!(c.expand_check_model(1), ExpandStep::Expanded);
    assert_eq!(c.check_models.get(1).unwrap().expanded_remote_gadgets, Some(vec![Some(2)]));
    assert_eq!(c.expand_check_model(2), ExpandStep::Expanded);
    assert_eq!(c.part_expanded(2), Some(false), "the error model is left");
    assert!(c.drain_dem(false).edges.is_empty());
    assert_eq!(c.expand_error_model(1), ExpandStep::Expanded);
    assert_eq!(c.error_models.get(1).unwrap().expanded_remote_check_models, Some(vec![Some(1)]));
    assert_eq!(c.drain_dem(false).edges[0].detectors, vec![(2, 0), (1, 0)]);
    assert_eq!(c.part_expanded(2), Some(true));
}

#[test]
fn an_error_model_waits_for_a_binding() {
    let mut c = MonolithicCoordinator::new(config());
    assert_eq!(c.load_library(remote_library()), Ok(()));
    c.try_execute(gadget(0, 1, vec![]));
    c.try_execute(gadget(0, 2, vec![Connector { gid: 1, port: 0 }]));
    c.try_execute(check_model(0, 1, 2));
    c.try_execute(error_model(0, 1, 1));
    assert_eq!(c.expand_error_model(1), ExpandStep::Waits(Unresolved::Binding(1)));
    c.try_execute(check_model(0, 2, 1));
    assert_eq!(c.expand_error_model(1), ExpandStep::Expanded);
    assert_eq!(c.error_models.get(1).unwrap().expanded_remote_check_models, Some(vec![Some(2)]));
}
