//! A program that is decoded window by window.
use deq_runtime::bin::{
    Check, CheckModel, CheckModelType, Connector, Create, Error, ErrorModel, ErrorModelType, Gadget, GadgetType, Instruction,
    Library, Port, Readout, RemoteCheck, RemoteCheckModel, RemoteGadget, RemoteMeasurement,
};
use deq_runtime::bit_vector::from_bits;
use deq_runtime::collections::IdSet;
use deq_runtime::coordinator::{imputation_rng, Outcomes, ResetRequest};
use deq_runtime::decode_plan::{report_decode, DecodePlan, DecoderCache};
use deq_runtime::dem::DemDetectorGroup;
use deq_runtime::detectors::get_gadget_detectors;
use deq_runtime::network::GadgetState;
use deq_runtime::prepare::{committed_rows, WindowStep};
use deq_runtime::probability::Probability;
use deq_runtime::status::StatusCode;
use deq_runtime::syndromes::SyndromeStep;
use deq_runtime::window::{default_buffer_radius, WindowCoordinator, WindowCoordinatorConfig};
use deq_runtime::window_decode::{commit_step, unready_gadgets, CommitStep};
use deq_runtime::window_explore::{ports_connected, ExploredWindow, MandatoryStep};
use deq_runtime::window_region::decoder_window_of;

fn p(value: f64) -> Probability {
    Probability::from_bits(value.to_bits())
}

fn gadget_type(gtype: u64, inputs: usize, outputs: usize) -> GadgetType {
    GadgetType {
        gtype,
        inputs: vec![1; inputs],
        outputs: vec![1; outputs],
        num_measurements: 1,
        readouts: vec![Readout { measurement_indices: vec![0] }],
        is_free_hop: None,
        propagation: Default::default(),
    }
}

fn at_output() -> RemoteCheckModel {
    RemoteCheckModel { port: Some(Port::Output(0)), ..Default::default() }
}

/// Gadgets with one outcome and one check each. A mechanism flips the readout and the
/// check of its gadget; another one also fires the check of the next gadget.
fn library() -> Library {
    let local = RemoteCheck { remote_check_model: None, check_index: 0 };
    let next = RemoteCheck { remote_check_model: Some(0), check_index: 0 };
    Library {
        port_types: vec![],
        gadget_types: vec![gadget_type(1, 0, 1), gadget_type(2, 1, 1), gadget_type(3, 1, 0)],
        check_model_types: vec![CheckModelType {
            ctype: 1,
            gtype: 0,
            checks: vec![Check {
                measurements: vec![RemoteMeasurement { remote_gadget: None, measurement_index: 0 }],
                naturally_flipped: false,
            }],
            remote_gadgets: vec![],
        }],
        error_model_types: vec![
            ErrorModelType {
                etype: 1,
                ctype: 1,
                errors: vec![
                    Error { checks: vec![local], residual: vec![], readout_flips: vec![0], probability: p(0.1) },
                    Error { checks: vec![local, next], residual: vec![], readout_flips: vec![], probability: p(0.2) },
                ],
                remote_check_models: vec![at_output()],
            },
            ErrorModelType {
                etype: 2,
                ctype: 1,
                errors: vec![Error { checks: vec![local], residual: vec![], readout_flips: vec![0], probability: p(0.1) }],
                remote_check_models: vec![],
            },
        ],
        program: vec![],
    }
}

fn gadget(gtype: u64, previous: Option<u64>) -> Instruction {
    let connectors = previous.map(|gid| Connector { gid, port: 0 }).into_iter().collect();
    Instruction { create: Some(Create::Gadget(Gadget { gid: 0, gtype, connectors, modifier: None })) }
}

fn check_model(gid: u64) -> Instruction {
    Instruction { create: Some(Create::CheckModel(CheckModel { cid: 0, ctype: 1, gid, modifier: None })) }
}

fn error_model(etype: u64, cid: u64) -> Instruction {
    Instruction { create: Some(Create::ErrorModel(ErrorModel { eid: 0, etype, cid, modifier: None })) }
}

fn outcomes(gid: u64, bit: bool) -> Outcomes {
    Outcomes { gid, outcomes: Some(from_bits(&vec![bit])), loss_mask: None }
}

fn coordinator() -> WindowCoordinator {
    let mut c = WindowCoordinator::new(WindowCoordinatorConfig::default());
    assert_eq!(c.load_library(library()), Ok(()));
    c
}

/// A chain of four gadgets, each with a check model and an error model.
fn chain() -> WindowCoordinator {
    let mut c = coordinator();
    assert_eq!(c.try_execute(gadget(1, None)), Some(Ok(1)));
    assert_eq!(c.try_execute(gadget(2, Some(1))), Some(Ok(2)));
    assert_eq!(c.try_execute(gadget(2, Some(2))), Some(Ok(3)));
    assert_eq!(c.try_execute(gadget(3, Some(3))), Some(Ok(4)));
    for gid in 1..5 {
        assert_eq!(c.try_execute(check_model(gid)), Some(Ok(gid)));
    }
    for cid in 1..5 {
        assert_eq!(c.try_execute(error_model(if cid < 4 { 1 } else { 2 }, cid)), Some(Ok(cid)));
    }
    c
}

fn state(c: &WindowCoordinator, gid: u64) -> GadgetState {
    c.gadgets.get(gid).unwrap().state
}

#[test]
fn a_window_goes_from_outcomes_to_committed_gadgets() {
    let mut c = chain();
    for gid in 1..5 {
        let load = c.begin_decode(outcomes(gid, gid == 1), None).unwrap();
        assert!(load.first_arrival && !load.waits_for_leader);
        assert_eq!(load.readouts, vec![gid == 1]);
        assert!(matches!(c.update_syndrome(gid), SyndromeStep::Stored));
    }
    let (mut explored, step) = ExploredWindow::explore_mandatory_zone(2, &c.gadgets, 1);
    assert!(matches!(step, MandatoryStep::Done));
    assert_eq!(explored.gadgets.sorted_ids(), vec![1, 2, 3]);
    explored.explore_lookahead_zone(&c.gadgets, &c.check_models, 1, 1);
    assert_eq!(explored.gadgets.sorted_ids(), vec![1, 2, 3, 4]);
    assert!(matches!(commit_step(&mut explored, &mut c.gadgets, 1), CommitStep::Claimed));
    // nothing lies beyond the window, so all of it is committed
    assert_eq!(explored.commit_region.sorted_ids(), vec![1, 2, 3, 4]);
    assert_eq!(explored.committing_cids.sorted_ids(), vec![1, 2, 3, 4]);
    assert_eq!(state(&c, 3), GadgetState::Decoding { leader_gid: 2 });
    assert_eq!(unready_gadgets(&explored.decoder_window, &c.gadgets), Some(vec![]));
    let mut cache = DecoderCache::new(true, true);
    let WindowStep::Decode(prepared) = c.prepare_decode(&explored, true, &cache) else { panic!("a decode is due") };
    assert_eq!(prepared.syndrome, from_bits(&vec![true, false, false, false]));
    assert_eq!(prepared.numbered.mapping.global_gid_of, vec![1, 2, 3, 4]);
    let DecodePlan::Build { key, decoder, .. } = prepared.plan else { panic!("nothing is kept yet") };
    assert_eq!(decoder.tables.errors.len(), 7);
    let local = decoder.decoder_vertices.iter().position(|vertices| *vertices == vec![0]).unwrap() as u64;
    let sizes = vec![(0, 1); 4];
    let frames = c.commit_window(&explored, &prepared.numbered, &vec![local], &decoder.tables.errors, &sizes).unwrap();
    assert_eq!(frames[0].readout_list(), vec![true]);
    assert_eq!(frames[1].readout_list(), vec![false]);
    for gid in 1..5 {
        assert_eq!(state(&c, gid), GadgetState::Committed);
        assert_eq!(c.check_models.get(gid).unwrap().syndrome, Some(from_bits(&vec![false])));
        assert_eq!(c.wait_for_detectors(gid), Ok(Some(from_bits(&vec![gid == 1]))), "detectors are not corrected");
    }
    let row = cache.keep(key.unwrap(), 5, decoder);
    let report = report_decode(
        2,
        &vec![local],
        &cache.rows[row],
        Some(&explored.committing_cids),
        &prepared.numbered.gadgets,
        &prepared.numbered.mapping,
        &c.error_models,
        &c.types.error_model_types,
        &cache,
    )
    .unwrap();
    assert_eq!(report.fired, vec![(1, 0)]);
    assert_eq!(report.flips, vec![(1, 0)]);
    assert!(report.buffer_edges.is_empty());
    // a committed center has nothing left to claim
    let (mut again, _) = ExploredWindow::explore_mandatory_zone(2, &c.gadgets, 1);
    assert!(matches!(commit_step(&mut again, &mut c.gadgets, 1), CommitStep::Committed));
}

#[test]
fn a_mechanism_across_gadgets_flips_both_checks() {
    let mut c = chain();
    for gid in 1..5 {
        c.begin_decode(outcomes(gid, gid < 3), None).unwrap();
        assert!(matches!(c.update_syndrome(gid), SyndromeStep::Stored));
    }
    let (mut explored, _) = ExploredWindow::explore_mandatory_zone(2, &c.gadgets, 1);
    explored.explore_lookahead_zone(&c.gadgets, &c.check_models, 1, 1);
    assert!(matches!(commit_step(&mut explored, &mut c.gadgets, 1), CommitStep::Claimed));
    let cache = DecoderCache::new(false, true);
    let WindowStep::Decode(prepared) = c.prepare_decode(&explored, false, &cache) else { panic!("a decode is due") };
    assert_eq!(prepared.syndrome, from_bits(&vec![true, true, false, false]));
    let DecodePlan::Build { key, decoder, .. } = prepared.plan else { panic!("nothing is kept") };
    assert!(key.is_none());
    let both = decoder.decoder_vertices.iter().position(|vertices| *vertices == vec![0, 1]).unwrap() as u64;
    let unknown = c.commit_window(&explored, &prepared.numbered, &vec![99], &decoder.tables.errors, &vec![(0, 1); 4]);
    assert!(unknown.is_none());
    assert_eq!(state(&c, 1), GadgetState::Decoding { leader_gid: 2 }, "nothing changed");
    c.commit_window(&explored, &prepared.numbered, &vec![both], &decoder.tables.errors, &vec![(0, 1); 4]).unwrap();
    assert_eq!(c.check_models.get(1).unwrap().syndrome, Some(from_bits(&vec![false])));
    assert_eq!(c.check_models.get(2).unwrap().syndrome, Some(from_bits(&vec![false])));
}

#[test]
fn gadgets_near_the_edge_wait_for_a_later_window() {
    let mut c = chain();
    for gid in 1..4 {
        c.begin_decode(outcomes(gid, false), None).unwrap();
        assert!(matches!(c.update_syndrome(gid), SyndromeStep::Stored));
    }
    // the last gadget has no syndrome yet, so the window does not look at it
    let (mut explored, _) = ExploredWindow::explore_mandatory_zone(2, &c.gadgets, 1);
    explored.explore_lookahead_zone(&c.gadgets, &c.check_models, 1, 1);
    assert_eq!(explored.gadgets.sorted_ids(), vec![1, 2, 3]);
    assert!(matches!(commit_step(&mut explored, &mut c.gadgets, 1), CommitStep::Claimed));
    assert_eq!(explored.commit_region.sorted_ids(), vec![1, 2]);
    assert_eq!(explored.decoder_window.sorted_ids(), vec![1, 2, 3]);
    // an overlapping window has to wait
    let (mut other, _) = ExploredWindow::explore_mandatory_zone(4, &c.gadgets, 1);
    let CommitStep::Blocked(blocked) = commit_step(&mut other, &mut c.gadgets, 1) else { panic!("gadget 3 is taken") };
    assert_eq!(blocked, vec![3]);
    let (mut held, _) = ExploredWindow::explore_mandatory_zone(1, &c.gadgets, 1);
    assert!(matches!(commit_step(&mut held, &mut c.gadgets, 1), CommitStep::HeldBy(2)));
    let cache = DecoderCache::new(true, true);
    let WindowStep::Decode(prepared) = c.prepare_decode(&explored, true, &cache) else { panic!("a decode is due") };
    let DecodePlan::Build { decoder, .. } = prepared.plan else { panic!("nothing is kept") };
    c.commit_window(&explored, &prepared.numbered, &vec![], &decoder.tables.errors, &vec![(0, 1); 3]).unwrap();
    assert_eq!(state(&c, 2), GadgetState::Committed);
    assert_eq!(state(&c, 3), GadgetState::Uncommitted, "the buffer is free again");
}

/// Gadgets 1, 2, 3 and 4 in a row; those of type 4 are free hops.
fn row(types: [u64; 4]) -> WindowCoordinator {
    let mut library = library();
    library.gadget_types.push(GadgetType { is_free_hop: Some(true), ..gadget_type(4, 1, 1) });
    let mut c = WindowCoordinator::new(WindowCoordinatorConfig::default());
    assert_eq!(c.load_library(library), Ok(()));
    for (i, gtype) in types.into_iter().enumerate() {
        let previous = if i == 0 { None } else { Some(i as u64) };
        assert_eq!(c.try_execute(gadget(gtype, previous)), Some(Ok(i as u64 + 1)));
    }
    c
}

#[test]
fn a_free_hop_at_the_rim_of_the_buffer_is_decoded_too() {
    let c = row([1, 2, 4, 3]);
    let (explored, region) = (IdSet::from_ids(&vec![1, 2, 3, 4]), IdSet::from_ids(&vec![1]));
    assert_eq!(decoder_window_of(&explored, &region, &c.gadgets, 1).sorted_ids(), vec![1, 2, 3]);
    let c = row([1, 2, 2, 3]);
    assert_eq!(decoder_window_of(&explored, &region, &c.gadgets, 1).sorted_ids(), vec![1, 2]);
}

#[test]
fn a_window_without_radius_takes_in_free_hops() {
    let c = row([1, 4, 4, 3]);
    let (explored, step) = ExploredWindow::explore_mandatory_zone(1, &c.gadgets, 0);
    assert!(matches!(step, MandatoryStep::Done));
    assert_eq!(explored.gadgets.sorted_ids(), vec![1, 2]);
}

#[test]
fn an_unconnected_output_holds_the_mandatory_zone() {
    let mut c = coordinator();
    c.try_execute(gadget(1, None));
    let (mut explored, step) = ExploredWindow::explore_mandatory_zone(1, &c.gadgets, 1);
    let MandatoryStep::Wait { current, ports } = step else { panic!("the output is open") };
    assert_eq!((current, &ports), (1, &vec![Connector { gid: 1, port: 0 }]));
    assert!(!ports_connected(&c.gadgets, &ports));
    c.try_execute(gadget(3, Some(1)));
    assert!(ports_connected(&c.gadgets, &ports));
    assert!(matches!(explored.continue_mandatory_zone(&c.gadgets, current, 1), MandatoryStep::Done));
    assert_eq!(explored.gadgets.sorted_ids(), vec![1, 2]);
}

#[test]
fn outcomes_alone_do_not_make_a_gadget_ready() {
    let mut c = chain();
    c.begin_decode(outcomes(1, false), None).unwrap();
    c.submit_outcomes(outcomes(2, false), None).unwrap();
    let mut waiting = unready_gadgets(&IdSet::from_ids(&vec![1, 2, 3]), &c.gadgets).unwrap();
    waiting.sort();
    assert_eq!(waiting, vec![2, 3], "outcomes alone do not make a gadget ready");
    assert!(unready_gadgets(&IdSet::from_ids(&vec![1, 9]), &c.gadgets).is_none());
}

#[test]
fn a_gadget_keeps_its_modifier() {
    let mut c = coordinator();
    let modified = Gadget { gid: 0, gtype: 1, connectors: vec![], modifier: Some(vec![9]) };
    assert_eq!(c.try_execute(Instruction { create: Some(Create::Gadget(modified.clone())) }), Some(Ok(1)));
    assert_eq!(c.gadgets.get(1).unwrap().instance, Gadget { gid: 1, ..modified });
}

#[test]
fn a_decode_finds_submitted_outcomes() {
    let mut c = chain();
    let load = c.submit_outcomes(outcomes(2, true), None).unwrap();
    assert!(load.first_arrival);
    assert!(!c.gadgets.get(2).unwrap().decode_ready);
    assert_eq!(c.gadgets.get(2).unwrap().outcomes, Some(from_bits(&vec![true])));
    // the decode finds the outcomes and leaves them
    let load = c.begin_decode(outcomes(2, false), None).unwrap();
    assert!(!load.first_arrival);
    assert_eq!(load.readouts, vec![true]);
    assert!(c.gadgets.get(2).unwrap().decode_ready);
    assert_eq!(c.gadgets.get(2).unwrap().outcomes, Some(from_bits(&vec![true])));
}

#[test]
fn lost_outcomes_are_filled_in_once() {
    let mut rng = imputation_rng(true, Some(7)).unwrap();
    let mut seen = [false, false];
    for _ in 0..64 {
        let mut c = chain();
        let lost = Outcomes { loss_mask: Some(from_bits(&vec![true])), ..outcomes(2, false) };
        c.submit_outcomes(lost.clone(), Some(&mut rng)).unwrap();
        let drawn = c.gadgets.get(2).unwrap().outcomes.clone();
        seen[drawn.as_ref().unwrap().data[0] as usize >> 7] = true;
        c.begin_decode(lost, Some(&mut rng)).unwrap();
        assert_eq!(c.gadgets.get(2).unwrap().outcomes, drawn);
    }
    assert_eq!(seen, [true, true], "both values are drawn");
    assert!(imputation_rng(false, Some(7)).is_none());
}

#[test]
fn outcome_requests_are_refused_with_a_reason() {
    let mut c = chain();
    let status = c.begin_decode(outcomes(9, true), None).unwrap_err();
    assert_eq!((status.code, status.message.as_str()), (StatusCode::NotFound, "gid=9"));
    let missing = Outcomes { gid: 1, outcomes: None, loss_mask: None };
    assert_eq!(c.begin_decode(missing.clone(), None).unwrap_err().message, "missing outcomes");
    assert_eq!(c.submit_outcomes(missing.clone(), None).unwrap_err().code, StatusCode::InvalidArgument);
    assert!(c.accepts_outcomes(&missing));
    assert!(!c.accepts_outcomes(&Outcomes { gid: 1, outcomes: Some(from_bits(&vec![])), loss_mask: None }));
}

#[test]
fn detectors_are_known_before_the_decode() {
    let mut c = chain();
    assert_eq!(c.wait_for_detectors(1), Ok(None));
    c.submit_outcomes(outcomes(1, true), None).unwrap();
    assert_eq!(c.wait_for_detectors(1), Ok(Some(from_bits(&vec![true]))));
    assert!(matches!(c.update_syndrome(1), SyndromeStep::Stored));
    assert_eq!(c.wait_for_detectors(1), Ok(Some(from_bits(&vec![true]))));
    assert_eq!(
        get_gadget_detectors(1, &c.types.check_model_types, &c.gadgets, &c.check_models),
        Some(from_bits(&vec![true]))
    );
    assert_eq!(c.wait_for_detectors(9).unwrap_err().code, StatusCode::NotFound);
}

#[test]
fn a_gadget_without_check_model_has_no_detectors() {
    let mut c = coordinator();
    c.try_execute(gadget(1, None));
    assert_eq!(c.wait_for_detectors(1), Ok(Some(from_bits(&vec![]))));
}

#[test]
fn a_syndrome_waits_for_connections_and_outcomes() {
    let mut types = library();
    types.check_model_types[0].checks[0].measurements.push(RemoteMeasurement {
        remote_gadget: Some(0),
        measurement_index: 0,
    });
    types.check_model_types[0].remote_gadgets.push(RemoteGadget { port: Some(Port::Output(0)), ..Default::default() });
    let mut c = WindowCoordinator::new(WindowCoordinatorConfig::default());
    assert_eq!(c.load_library(types), Ok(()));
    c.try_execute(gadget(1, None));
    c.try_execute(check_model(1));
    assert!(matches!(c.update_syndrome(9), SyndromeStep::Gone));
    assert!(matches!(c.update_syndrome(1), SyndromeStep::Waits(_)));
    c.try_execute(gadget(3, Some(1)));
    let SyndromeStep::WaitsForOutcomes(mut gids) = c.update_syndrome(1) else { panic!("no outcomes yet") };
    gids.sort();
    assert_eq!(gids, vec![1, 2]);
    c.submit_outcomes(outcomes(1, true), None).unwrap();
    c.submit_outcomes(outcomes(2, true), None).unwrap();
    assert!(matches!(c.update_syndrome(1), SyndromeStep::Stored));
    assert_eq!(c.check_models.get(1).unwrap().syndrome, Some(from_bits(&vec![false])));
    assert_eq!(c.check_models.get(1).unwrap().expanded_remote_gadgets, Some(vec![Some(2)]));
}

#[test]
fn a_window_without_check_models_needs_no_decode() {
    let mut c = coordinator();
    c.try_execute(gadget(1, None));
    c.try_execute(gadget(3, Some(1)));
    c.begin_decode(outcomes(1, true), None).unwrap();
    c.begin_decode(outcomes(2, true), None).unwrap();
    let (mut explored, _) = ExploredWindow::explore_mandatory_zone(1, &c.gadgets, 1);
    assert!(matches!(commit_step(&mut explored, &mut c.gadgets, 1), CommitStep::Claimed));
    let cache = DecoderCache::new(true, true);
    assert!(matches!(c.prepare_decode(&explored, true, &cache), WindowStep::Trivial));
    let frames = c.commit_trivial(&explored, &vec![(2, 0), (0, 1)]);
    assert_eq!(frames[0].residual_list(), vec![false, false]);
    assert_eq!(frames[1].readout_list(), vec![false]);
    for gid in explored.commit_region.sorted_ids() {
        assert_eq!(state(&c, gid), GadgetState::Committed);
    }
}

#[test]
fn rows_of_a_region_come_in_order() {
    assert_eq!(committed_rows(&vec![5, 2, 9, 2], &IdSet::from_ids(&vec![9, 2])), vec![1, 2, 3]);
    assert!(committed_rows(&vec![5], &IdSet::from_ids(&vec![9])).is_empty());
}

#[test]
fn check_models_without_syndromes_are_found() {
    let mut c = chain();
    c.submit_outcomes(outcomes(2, true), None).unwrap();
    assert!(matches!(c.update_syndrome(2), SyndromeStep::Stored));
    let cids = c.check_models_of(&vec![3, 2, 99]);
    assert_eq!(cids, vec![3, 2]);
    assert_eq!(c.without_syndrome(&cids), vec![3]);
    assert!(c.without_syndrome(&vec![2, 99]).is_empty());
}

#[test]
fn a_window_without_syndromes_is_not_decoded() {
    let mut c = chain();
    let (mut explored, _) = ExploredWindow::explore_mandatory_zone(2, &c.gadgets, 1);
    assert!(matches!(commit_step(&mut explored, &mut c.gadgets, 1), CommitStep::Claimed));
    let cache = DecoderCache::new(true, true);
    assert!(matches!(c.prepare_decode(&explored, true, &cache), WindowStep::Unknown));
}

#[test]
fn edges_wait_for_the_next_gadget() {
    let mut c = coordinator();
    c.set_dem_enabled(true);
    c.try_execute(gadget(1, None));
    c.try_execute(check_model(1));
    c.try_execute(error_model(1, 1));
    let drained = c.drain_dem(false);
    assert_eq!(drained.detector_groups, vec![DemDetectorGroup { gid: 1, cid: 1, count: 1 }]);
    assert!(drained.edges.is_empty(), "the next gadget is not there");
    c.try_execute(gadget(3, Some(1)));
    assert!(c.drain_dem(true).edges.is_empty(), "its check model is not there");
    c.try_execute(check_model(2));
    let drained = c.drain_dem(false);
    assert_eq!(drained.edges.len(), 2);
    assert_eq!(drained.edges[0].detectors, vec![(1, 0)]);
    assert_eq!(drained.edges[1].detectors, vec![(1, 0), (2, 0)]);
}

#[test]
fn a_named_check_model_is_waited_for() {
    let mut types = library();
    types.error_model_types[0].remote_check_models[0] = RemoteCheckModel { absolute_cid: Some(2), ..Default::default() };
    let mut c = WindowCoordinator::new(WindowCoordinatorConfig::default());
    assert_eq!(c.load_library(types), Ok(()));
    c.set_dem_enabled(true);
    c.try_execute(gadget(1, None));
    c.try_execute(check_model(1));
    c.try_execute(error_model(1, 1));
    assert!(c.drain_dem(false).edges.is_empty());
    c.try_execute(gadget(3, Some(1)));
    c.try_execute(check_model(2));
    assert_eq!(c.drain_dem(false).edges[1].detectors, vec![(1, 0), (2, 0)]);
}

#[test]
fn configured_radii() {
    let mut config = WindowCoordinatorConfig::default();
    assert_eq!((default_buffer_radius(), config.buffer_radius), (1, 1));
    assert_eq!((config.lookahead_radius(), config.effective_window_radius()), (1, 2));
    config.lookahead_radius = Some(4);
    assert_eq!((config.lookahead_radius(), config.effective_window_radius()), (4, 5));
    config.buffer_radius = 0;
    assert_eq!((config.lookahead_radius(), config.effective_window_radius()), (0, 0));
}

#[test]
fn reset_keeps_the_types_unless_asked() {
    let mut c = chain();
    c.reset(ResetRequest { reset_library: false, reset_decoder_service: true });
    assert!(c.gadgets.get(1).is_none() && c.check_models.get(1).is_none() && c.error_models.get(1).is_none());
    assert_eq!(c.try_execute(gadget(1, None)), Some(Ok(1)));
    c.reset(ResetRequest { reset_library: true, reset_decoder_service: false });
    assert_eq!(c.try_execute(gadget(1, None)).unwrap().unwrap_err().message, "gtype=1");
}
