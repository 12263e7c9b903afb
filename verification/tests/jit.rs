//! Just-in-time compilation of gadgets into check models and error models.
use deq_runtime::bin::{
    BitMatrix, CheckModelType, Connector, Gadget, GadgetType, PortType, Propagation, RemoteCheck, RemoteMeasurement,
};
use deq_runtime::bit_vector::from_bits;
use deq_runtime::coordinator::{Readouts, ResetRequest};
use deq_runtime::jit::{JitCheck, JitError, JitGadgetType, JitInstruction, JitLibrary, JitMeasurement, JitPortType};
use deq_runtime::jit_compiler::{JitClash, JitCompiler};
use deq_runtime::jit_controller::{
    build_check_model_modifier, check_batch, collect_readouts, coordinator_types, decode_after_load, default_cache_enabled,
    not_connected, unload, BatchExecuteError, JitController, LoadOutcome,
};
use deq_runtime::jit_errors::ErrorModelStep;
use deq_runtime::jit_progress::{CompileWaits, DecodeProgressState};
use deq_runtime::probability::Probability;
use deq_runtime::status::{Status, StatusCode};

fn p(value: f64) -> Probability {
    Probability::from_bits(value.to_bits())
}

fn local(measurement_index: u64) -> JitMeasurement {
    JitMeasurement { input_port: None, measurement_index }
}

fn check(measurements: Vec<JitMeasurement>) -> JitCheck {
    JitCheck { naturally_flipped: false, measurements }
}

fn base(gtype: u64, inputs: usize, outputs: usize) -> GadgetType {
    GadgetType {
        gtype,
        inputs: vec![1; inputs],
        outputs: vec![1; outputs],
        num_measurements: 1,
        readouts: vec![],
        is_free_hop: None,
        propagation: Default::default(),
    }
}

fn error(finished_checks: Vec<u64>, unfinished_checks: Vec<u64>) -> JitError {
    JitError { residual: vec![], readout_flips: vec![], probability: p(0.1), finished_checks, unfinished_checks }
}

/// A gadget that opens a check, one that hands it on, and one that closes it.
fn library() -> JitLibrary {
    let input = JitMeasurement { input_port: Some(0), measurement_index: 0 };
    JitLibrary {
        port_types: vec![JitPortType { base: PortType { ptype: 1, observables: 0 }, stabilizers: 1 }],
        gadget_types: vec![
            JitGadgetType {
                base: base(1, 0, 1),
                finished_checks: vec![],
                unfinished_checks: vec![check(vec![local(0)])],
                errors: vec![error(vec![], vec![0])],
            },
            JitGadgetType {
                base: base(2, 1, 1),
                finished_checks: vec![check(vec![local(0), input])],
                unfinished_checks: vec![check(vec![local(0), input])],
                errors: vec![error(vec![0], vec![0])],
            },
            JitGadgetType {
                base: base(3, 1, 0),
                finished_checks: vec![check(vec![local(0), input])],
                unfinished_checks: vec![],
                errors: vec![error(vec![0], vec![])],
            },
        ],
    }
}

fn gadget(gid: u64, gtype: u64, previous: Option<u64>) -> Gadget {
    let connectors = previous.map(|gid| Connector { gid, port: 0 }).into_iter().collect();
    Gadget { gid, gtype, connectors, modifier: None }
}

fn compiler() -> JitCompiler {
    let mut compiler = JitCompiler::new();
    assert!(compiler.load_library(library()).is_none());
    compiler
}

#[test]
fn checks_reach_through_connections() {
    let mut compiler = compiler();
    let first = compiler.compile(gadget(0, 1, None)).unwrap();
    assert_eq!((first.gadget.gid, first.check_model.cid, first.check_model_type.ctype), (1, 1, 1));
    assert!(first.check_model_type.checks.is_empty());
    let second = compiler.compile(gadget(0, 2, Some(1))).unwrap();
    assert_eq!(second.gadget.gid, 2);
    let checks = &second.check_model_type.checks;
    assert_eq!(checks.len(), 1);
    assert_eq!(
        checks[0].measurements,
        vec![
            RemoteMeasurement { remote_gadget: None, measurement_index: 0 },
            RemoteMeasurement { remote_gadget: Some(0), measurement_index: 0 },
        ]
    );
    assert_eq!(second.check_model_type.remote_gadgets[0].absolute_gid, Some(1));
    assert!(compiler.contains_gid(2) && !compiler.contains_gid(3));
}

#[test]
fn new_gadgets_get_fresh_ids() {
    let mut compiler = compiler();
    let ids: Vec<u64> =
        [0, 7, 3, 0].into_iter().map(|gid| compiler.compile(gadget(gid, 1, None)).unwrap().gadget.gid).collect();
    assert_eq!(ids, vec![1, 7, 3, 8]);
    let closing = compiler.compile(gadget(0, 3, Some(7))).unwrap();
    assert_eq!(closing.gadget.gid, 9);
    assert_eq!((closing.check_model.cid, closing.check_model.ctype, closing.check_model.gid), (9, 9, 9));
    assert_eq!(closing.check_model_type.ctype, 9);
}

#[test]
fn a_check_lists_each_measurement_once() {
    let input = JitMeasurement { input_port: Some(0), measurement_index: 0 };
    let mut types = library();
    types.gadget_types[2].finished_checks = vec![check(vec![input, local(1), local(0), local(1), local(1)])];
    types.gadget_types[2].base.num_measurements = 2;
    let mut compiler = JitCompiler::new();
    assert!(compiler.load_library(types).is_none());
    compiler.compile(gadget(0, 1, None)).unwrap();
    let closing = compiler.compile(gadget(0, 3, Some(1))).unwrap();
    assert_eq!(
        closing.check_model_type.checks[0].measurements,
        vec![
            RemoteMeasurement { remote_gadget: None, measurement_index: 0 },
            RemoteMeasurement { remote_gadget: None, measurement_index: 1 },
            RemoteMeasurement { remote_gadget: Some(0), measurement_index: 0 },
        ]
    );
}

#[test]
fn error_models_wait_for_what_follows() {
    let mut compiler = compiler();
    compiler.compile(gadget(0, 1, None)).unwrap();
    assert!(matches!(compiler.build_error_model(1, None), ErrorModelStep::WaitsForOutput(0)));
    compiler.compile(gadget(0, 3, Some(1))).unwrap();
    let ErrorModelStep::Ready { error_model_type, error_model } = compiler.build_error_model(2, None) else {
        panic!("nothing follows")
    };
    assert_eq!((error_model.eid, error_model.cid, error_model.etype), (2, 2, 2));
    assert_eq!(error_model_type.errors[0].checks, vec![RemoteCheck { remote_check_model: None, check_index: 0 }]);
    let ErrorModelStep::Ready { error_model_type, .. } = compiler.build_error_model(1, None) else {
        panic!("what follows is done")
    };
    assert_eq!(error_model_type.errors[0].checks, vec![RemoteCheck { remote_check_model: Some(0), check_index: 0 }]);
    assert_eq!(error_model_type.remote_check_models[0].absolute_cid, Some(2));
}

#[test]
fn error_models_wait_for_their_peers() {
    let mut compiler = compiler();
    compiler.compile(gadget(0, 1, None)).unwrap();
    compiler.compile(gadget(0, 2, Some(1))).unwrap();
    assert!(matches!(compiler.build_error_model(2, None), ErrorModelStep::WaitsForOutput(0)));
    assert!(matches!(compiler.build_error_model(1, None), ErrorModelStep::WaitsForPeer(2)));
    compiler.compile(gadget(0, 3, Some(2))).unwrap();
    assert!(matches!(compiler.build_error_model(3, None), ErrorModelStep::Ready { .. }));
    let ErrorModelStep::Ready { error_model_type, .. } = compiler.build_error_model(2, None) else { panic!("resolved") };
    assert_eq!(
        error_model_type.errors[0].checks,
        vec![
            RemoteCheck { remote_check_model: None, check_index: 0 },
            RemoteCheck { remote_check_model: Some(0), check_index: 0 },
        ]
    );
    assert!(matches!(compiler.build_error_model(1, None), ErrorModelStep::Ready { .. }));
}

#[test]
fn what_cannot_be_compiled_changes_nothing() {
    let mut compiler = compiler();
    assert!(compiler.compile(gadget(0, 9, None)).is_none(), "unknown type");
    assert!(compiler.compile(gadget(0, 3, Some(5))).is_none(), "unknown peer");
    compiler.compile(gadget(7, 1, None)).unwrap();
    assert_eq!(compiler.compile(gadget(0, 1, None)).unwrap().gadget.gid, 8, "ids go on behind it");
    assert!(matches!(compiler.load_library(library()), Some(JitClash::PortType(1))));
    compiler.reset();
    assert!(!compiler.contains_gid(7));
}

fn controller(cache_enabled: bool) -> JitController {
    let mut controller = JitController::new_from_library(library(), cache_enabled);
    assert!(controller.compiler.load_library(library()).is_none());
    controller
}

#[test]
fn equal_types_are_shared() {
    let mut shared = controller(default_cache_enabled());
    let a = shared.execute(gadget(0, 1, None)).unwrap();
    let b = shared.execute(gadget(0, 1, None)).unwrap();
    assert!(a.new_type.is_some());
    assert!(b.new_type.is_none(), "the type is known");
    assert_eq!(a.check_model.ctype, b.check_model.ctype);
    let mut separate = controller(false);
    let a = separate.execute(gadget(0, 1, None)).unwrap();
    let b = separate.execute(gadget(0, 1, None)).unwrap();
    assert!(b.new_type.is_some());
    assert_ne!(a.check_model.ctype, b.check_model.ctype);
}

#[test]
fn shared_types_keep_their_own_remotes() {
    let mut c = controller(true);
    for pair in 0..2 {
        let first = c.execute(gadget(0, 1, None)).unwrap().gadget.gid;
        let second = c.execute(gadget(0, 3, Some(first))).unwrap();
        let modifier = second.check_model.modifier.unwrap();
        assert_eq!(modifier.reroute_remote_gadgets[0].value.unwrap().absolute_gid, Some(first));
        assert_eq!(second.new_type.is_some(), pair == 0);
    }
    assert!(build_check_model_modifier(&CheckModelType::default()).is_none());
    let ErrorModelStep::Ready { error_model_type, error_model } = c.compiler.build_error_model(2, None) else {
        panic!("nothing follows")
    };
    let request = c.finish_error_model(&error_model_type, &error_model);
    assert!(request.new_type.is_some());
    assert_eq!((request.error_model.eid, request.error_model.cid), (2, 2));
    let ErrorModelStep::Ready { error_model_type, error_model } = c.compiler.build_error_model(4, None) else {
        panic!("nothing follows")
    };
    let again = c.finish_error_model(&error_model_type, &error_model);
    assert!(again.new_type.is_none());
    assert_eq!(again.error_model.etype, request.error_model.etype);
}

#[test]
fn a_gadget_is_decoded_once() {
    let mut c = controller(true);
    let gid = c.execute(gadget(0, 1, None)).unwrap().gadget.gid;
    assert_eq!(c.begin_decode(gid), Ok(()));
    assert!(c.begin_decode(gid).is_err());
    assert!(c.begin_decode(99).is_err());
    c.reset(ResetRequest { reset_library: false, reset_decoder_service: false });
    assert!(c.begin_decode(gid).is_err());
}

#[test]
fn type_numbers_start_anew_with_the_coordinator() {
    let mut c = controller(true);
    assert_eq!((c.next_ctype(), c.next_ctype(), c.next_etype()), (1, 2, 1));
    let first = c.execute(gadget(0, 1, None)).unwrap();
    assert_eq!(first.check_model.ctype, 3);
    c.clear_cache();
    let second = c.execute(gadget(0, 1, None)).unwrap();
    assert_eq!(second.check_model.ctype, 4, "the type is loaded again");
    let request = c.reset(ResetRequest { reset_library: true, reset_decoder_service: false });
    assert!(request.reset_library && request.reset_decoder_service);
    let types = c.after_coordinator_reset(request).unwrap();
    assert_eq!(types.gadget_types, vec![base(1, 0, 1), base(2, 1, 1), base(3, 1, 0)]);
    let third = c.execute(gadget(0, 1, None)).unwrap();
    assert_eq!((third.gadget.gid, third.check_model.ctype), (1, 1));
    let request = c.reset(ResetRequest { reset_library: false, reset_decoder_service: false });
    assert!(c.after_coordinator_reset(request).is_none());
    assert_eq!(c.next_ctype(), 2, "the numbers go on");
}

fn instruction(gid: u64, gtype: u64, previous: Option<u64>) -> JitInstruction {
    JitInstruction { gadget: Some(gadget(gid, gtype, previous)), probability_modifier: None }
}

#[test]
fn batches_are_checked() {
    let compiler = compiler();
    let order = check_batch(&vec![instruction(1, 1, None), instruction(2, 3, Some(1))], &compiler).unwrap();
    assert_eq!(order, vec![vec![], vec![0]]);
    let none = JitInstruction { gadget: None, probability_modifier: None };
    let error = check_batch(&vec![instruction(1, 1, None), none], &compiler).unwrap_err();
    assert!(matches!(error, BatchExecuteError::MissingGadget { index: 1 }));
    assert_eq!(error.text(), "instruction at index 1 has no gadget");
    let error = check_batch(&vec![instruction(0, 1, None)], &compiler).unwrap_err();
    assert_eq!(error.text(), "instruction at index 0 has gid=0; all batch instructions must specify non-zero gid");
    let error = check_batch(&vec![instruction(4, 1, None), instruction(4, 1, None)], &compiler).unwrap_err();
    assert_eq!(error.text(), "instruction at index 1 has duplicate gid=4");
    let error = check_batch(&vec![instruction(2, 3, Some(1))], &compiler).unwrap_err();
    assert_eq!(error.text(), "instruction at index 0 (gid=2) depends on gid=1 which does not exist");
    assert_eq!(error.to_status().code, StatusCode::InvalidArgument);
}

#[test]
fn decode_single_rejects_a_dropped_error_model_loader() {
    assert_eq!(decode_after_load(3, LoadOutcome::Loaded), Ok(()));
    let status = Status::new(StatusCode::NotFound, "gone");
    assert_eq!(decode_after_load(3, LoadOutcome::Failed(status.clone())).unwrap_err().message, "gone");
    assert!(decode_after_load(3, LoadOutcome::Dropped).is_err());
    assert_eq!(decode_after_load(3, LoadOutcome::Cancelled).unwrap_err().code, StatusCode::Cancelled);
}

#[test]
fn readouts_of_a_batch_come_in_order_or_not_at_all() {
    let one = |gid| Readouts { gid, readouts: Some(from_bits(&vec![true])), detectors: None };
    let all = collect_readouts(vec![Some(Ok(one(2))), Some(Ok(one(1)))]).unwrap();
    assert_eq!(all.iter().map(|r| r.gid).collect::<Vec<_>>(), vec![2, 1]);
    let failed = Status::new(StatusCode::NotFound, "gid=1");
    assert!(collect_readouts(vec![Some(Ok(one(2))), Some(Err(failed))]).is_err());
    assert!(collect_readouts(vec![None]).is_err());
    assert_ne!(not_connected().message, unload().message);
}

#[test]
fn coordinators_get_the_plain_types() {
    let types = coordinator_types(&library()).unwrap();
    assert_eq!(types.port_types, vec![PortType { ptype: 1, observables: 0 }]);
    assert_eq!(types.gadget_types, vec![base(1, 0, 1), base(2, 1, 1), base(3, 1, 0)]);
    assert!(types.check_model_types.is_empty() && types.error_model_types.is_empty());
}

#[test]
fn what_the_frame_tracker_reads_is_handed_on() {
    let matrix = |data: u8| Some(BitMatrix { rows: 1, cols: 2, data: vec![data] });
    let propagation = Propagation {
        correction_propagation: matrix(0x80),
        readout_propagation: matrix(0x40),
        logical_correction: None,
        physical_correction: matrix(0xc0),
    };
    let mut types = library();
    types.gadget_types[0].base.propagation = propagation.clone();
    assert_eq!(coordinator_types(&types).unwrap().gadget_types[0].propagation, propagation);
    let modified = Gadget { modifier: Some(vec![4, 2]), ..gadget(0, 1, None) };
    let compiled = compiler().compile(modified.clone()).unwrap();
    assert_eq!(compiled.gadget, Gadget { gid: 1, ..modified });
}

#[test]
fn progress_follows_the_waits() {
    let mut waits = CompileWaits::new();
    assert!(matches!(waits.decode_progress_state(1), DecodeProgressState::Pending));
    waits.set_output_wait(2, 0, true);
    waits.set_dependency_wait(1, 2, true);
    let before = waits.revision;
    assert!(matches!(waits.decode_progress_state(1), DecodeProgressState::NeedsGraph(ref ports) if *ports == vec![(2, 0)]));
    waits.set_output_wait(2, 0, false);
    assert_ne!(waits.revision, before);
    waits.set_dependency_wait(1, 2, false);
    waits.mark_error_model_ready(1);
    assert!(matches!(waits.decode_progress_state(1), DecodeProgressState::Ready));
    waits.clear();
    assert!(matches!(waits.decode_progress_state_for_roots(&vec![1]), DecodeProgressState::Pending));
}
