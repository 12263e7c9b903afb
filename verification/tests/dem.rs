//! Records of the detector error model: what becomes visible, and when.
use deq_runtime::bin::{
    Error, ErrorModel, ErrorModelModifier, ErrorModelType, ProbabilityModifier, RemoteCheck, RemoteCheckModel,
};
use deq_runtime::collections::IdSet;
use deq_runtime::dem::{effective_errors, prediction_flips, DemDetectorGroup, DemDrain, DemEdge, DemPrediction};
use deq_runtime::dem_log::DemLog;
use deq_runtime::probability::Probability;

fn p(value: f64) -> Probability {
    Probability::from_bits(value.to_bits())
}

fn local_error(value: f64, idxs: &[u64]) -> Error {
    Error {
        probability: p(value),
        checks: idxs
            .iter()
            .map(|&i| RemoteCheck {
                remote_check_model: None,
                check_index: i,
            })
            .collect(),
        ..Default::default()
    }
}

#[test]
fn check_model_and_local_errors_drain_immediately() {
    let mut log = DemLog::new();
    log.on_check_model(1, 1, 3);
    log.on_error_model(1, 10, 1, vec![local_error(0.01, &[0, 2])], &vec![]);
    let d = log.drain();
    assert_eq!(
        d.detector_groups,
        vec![DemDetectorGroup {
            gid: 1,
            cid: 1,
            count: 3
        }]
    );
    assert_eq!(
        d.edges,
        vec![DemEdge {
            gid: 1,
            eid: 10,
            error_index: 0,
            detectors: vec![(1, 0), (1, 2)],
            probability: p(0.01)
        }]
    );
    assert!(!log.has_pending());
    assert_eq!(log.drain(), DemDrain::default(), "drain moves, second drain empty");
}

#[test]
fn dem_edges_carry_their_owning_gadget() {
    let mut log = DemLog::new();
    log.on_check_model(7, 3, 2); // gid 7 owns cid 3 with 2 checks
    let local = Error {
        probability: p(0.01),
        checks: vec![RemoteCheck {
            remote_check_model: None,
            check_index: 0,
        }],
        ..Default::default()
    };
    log.on_error_model(7, 5, 3, vec![local], &vec![]);
    let drain = log.drain();
    assert_eq!(drain.edges.len(), 1);
    assert_eq!(drain.edges[0].gid, 7);
    assert_eq!(drain.edges[0].eid, 5);
}

#[test]
fn zero_probability_and_empty_vertex_errors_are_skipped() {
    let mut log = DemLog::new();
    log.on_error_model(
        1,
        10,
        1,
        vec![
            local_error(0.0, &[0]),
            Error {
                probability: p(0.5),
                checks: vec![],
                ..Default::default()
            },
        ],
        &vec![],
    );
    assert_eq!(log.drain(), DemDrain::default());
}

#[test]
fn remote_errors_pend_until_resolved_then_apply_check_bias() {
    let mut log = DemLog::new();
    log.on_check_model(1, 4, 2);
    log.on_check_model(2, 7, 3);
    let remote = Error {
        probability: p(0.02),
        checks: vec![
            RemoteCheck {
                remote_check_model: None,
                check_index: 1,
            },
            RemoteCheck {
                remote_check_model: Some(0),
                check_index: 0,
            },
        ],
        ..Default::default()
    };
    let slots = vec![Some(RemoteCheckModel {
        check_bias: 2,
        ..Default::default()
    })];
    log.on_error_model(1, 11, 4, vec![remote], &slots);
    assert!(log.has_pending());
    let d = log.drain();
    assert!(d.edges.is_empty(), "unresolved edges stay pending");
    log.on_remote_resolved(11, 0, 7);
    let d = log.drain();
    assert_eq!(
        d.edges,
        vec![DemEdge {
            gid: 1,
            eid: 11,
            error_index: 0,
            detectors: vec![(4, 1), (7, 2)],
            probability: p(0.02)
        }]
    );
    assert!(!log.has_pending());
}

#[test]
fn edges_wait_for_referenced_cid_to_be_announced() {
    // An absolute_cid reference resolves to a cid whose
    // CheckModel hasn't been created yet - hold the edge until announced.
    let mut log = DemLog::new();
    let remote = Error {
        probability: p(0.02),
        checks: vec![RemoteCheck {
            remote_check_model: Some(0),
            check_index: 0,
        }],
        ..Default::default()
    };
    log.on_error_model(1, 11, 4, vec![remote], &vec![Some(RemoteCheckModel::default())]);
    log.on_remote_resolved(11, 0, 7);
    assert!(log.has_pending(), "cid 7 not announced yet");
    assert!(log.drain().edges.is_empty());
    log.on_check_model(2, 7, 1);
    let d = log.drain();
    assert_eq!(d.edges.len(), 1);
    assert_eq!(d.edges[0].detectors, vec![(7, 0)]);
    assert!(!log.has_pending());
}

#[test]
fn edges_come_with_or_after_the_groups_they_end_at() {
    let mut log = DemLog::new();
    log.on_check_model(1, 4, 1);
    log.on_check_model(2, 7, 1);
    let first = log.drain();
    assert_eq!(first.detector_groups.iter().map(|g| g.cid).collect::<Vec<_>>(), vec![4, 7]);
    let checks = vec![
        RemoteCheck { remote_check_model: None, check_index: 0 },
        RemoteCheck { remote_check_model: Some(0), check_index: 0 },
        RemoteCheck { remote_check_model: Some(1), check_index: 0 },
    ];
    let slots = vec![Some(RemoteCheckModel::default()), Some(RemoteCheckModel::default())];
    log.on_error_model(1, 11, 4, vec![Error { probability: p(0.02), checks, ..Default::default() }], &slots);
    log.on_remote_resolved(11, 0, 7);
    log.on_remote_resolved(11, 1, 9);
    assert_eq!(log.drain(), DemDrain::default(), "check model 9 is not known");
    log.on_check_model(3, 9, 1);
    let last = log.drain();
    assert_eq!(last.detector_groups, vec![DemDetectorGroup { gid: 3, cid: 9, count: 1 }]);
    assert_eq!(last.edges.iter().map(|e| e.detectors.clone()).collect::<Vec<_>>(), vec![vec![(4, 0), (7, 0), (9, 0)]]);
    assert_eq!(log.drain(), DemDrain::default());
}

#[test]
fn on_remotes_resolved_resolves_all_slots_at_once() {
    let mut log = DemLog::new();
    log.on_check_model(1, 6, 1);
    log.on_check_model(2, 7, 1);
    let remote = Error {
        probability: p(0.02),
        checks: vec![RemoteCheck {
            remote_check_model: Some(1),
            check_index: 0,
        }],
        ..Default::default()
    };
    let slots = vec![Some(RemoteCheckModel::default()), Some(RemoteCheckModel::default())];
    log.on_error_model(1, 11, 4, vec![remote], &slots);
    log.on_remotes_resolved(11, &[Some(6), Some(7)]);
    assert_eq!(log.drain().edges[0].detectors, vec![(7, 0)]);
}

#[test]
fn error_referencing_removed_slot_is_dropped() {
    // A rerouted-away slot (None) can never resolve - matching window's projection.
    let mut log = DemLog::new();
    let remote = Error {
        probability: p(0.02),
        checks: vec![RemoteCheck {
            remote_check_model: Some(0),
            check_index: 0,
        }],
        ..Default::default()
    };
    log.on_error_model(1, 11, 4, vec![remote], &vec![None]);
    assert_eq!(log.drain(), DemDrain::default());
    assert!(!log.has_pending());
}

#[test]
fn zero_probability_error_with_unresolved_remote_ref_does_not_gate() {
    // p<=0 errors are filtered before any gating in is_resolvable: an
    // unresolved live ref inside one must not hold the model pending
    // (pins the filter order against reordering refactors).
    let mut log = DemLog::new();
    log.on_check_model(1, 7, 1);
    let zero_p = Error {
        probability: p(0.0),
        checks: vec![RemoteCheck {
            remote_check_model: Some(0), // live, unresolved
            check_index: 0,
        }],
        ..Default::default()
    };
    let live = local_error(0.01, &[0]);
    log.on_error_model(1, 11, 7, vec![zero_p, live], &vec![Some(RemoteCheckModel::default())]);
    assert!(!log.has_pending());
    assert_eq!(
        log.drain().edges,
        vec![DemEdge {
            gid: 1,
            eid: 11,
            error_index: 1,
            detectors: vec![(7, 0)],
            probability: p(0.01)
        }]
    );
}

#[test]
fn dead_slot_error_is_dropped_even_when_a_live_unresolved_ref_comes_first() {
    // emit() must pre-scan for dead slots like is_resolvable()
    // does. is_resolvable() exempts this error via the dead ref at ri=1,
    // so ri=0 is never gated (and never resolved) - reading resolved[0]
    // in check order would panic.
    let mut log = DemLog::new();
    let mixed = Error {
        probability: p(0.02),
        checks: vec![
            RemoteCheck {
                remote_check_model: Some(0), // live, unresolved
                check_index: 0,
            },
            RemoteCheck {
                remote_check_model: Some(1), // dead (rerouted away)
                check_index: 0,
            },
        ],
        ..Default::default()
    };
    log.on_error_model(1, 11, 4, vec![mixed], &vec![Some(RemoteCheckModel::default()), None]);
    assert_eq!(log.drain(), DemDrain::default());
    assert!(!log.has_pending());
}

#[test]
fn sweep_drops_dead_slot_error_without_poisoning_the_log() {
    // ri=1 is live but referenced only by the exempt error, so it is still
    // unresolved when the gating error's resolution triggers the sweep.
    let mut log = DemLog::new();
    log.on_check_model(1, 7, 1);
    let gating = Error {
        probability: p(0.01),
        checks: vec![RemoteCheck {
            remote_check_model: Some(0),
            check_index: 0,
        }],
        ..Default::default()
    };
    let mixed = Error {
        probability: p(0.02),
        checks: vec![
            RemoteCheck {
                remote_check_model: Some(1), // live, never resolved
                check_index: 0,
            },
            RemoteCheck {
                remote_check_model: Some(2), // dead (rerouted away)
                check_index: 0,
            },
        ],
        ..Default::default()
    };
    let slots = vec![Some(RemoteCheckModel::default()), Some(RemoteCheckModel::default()), None];
    log.on_error_model(1, 11, 7, vec![gating, mixed], &slots);
    assert!(log.has_pending());
    log.on_remote_resolved(11, 0, 7); // the sweep drops the dead error
    let d = log.drain();
    assert_eq!(
        d.edges,
        vec![DemEdge {
            gid: 1,
            eid: 11,
            error_index: 0,
            detectors: vec![(7, 0)],
            probability: p(0.01)
        }]
    );
    assert!(!log.has_pending());
    // the log keeps working
    log.on_check_model(2, 8, 1);
    assert_eq!(
        log.drain().detector_groups,
        vec![DemDetectorGroup {
            gid: 2,
            cid: 8,
            count: 1
        }]
    );
}

#[test]
fn predictions_queue_and_drain() {
    let mut log = DemLog::new();
    log.push_prediction(DemPrediction {
        gid: 1,
        fired: vec![(10, 0), (11, 2)],
        fired_buffer: vec![],
        flips: vec![],
        ..Default::default()
    });
    assert_eq!(
        log.drain_predictions(),
        vec![DemPrediction {
            gid: 1,
            fired: vec![(10, 0), (11, 2)],
            fired_buffer: vec![],
            flips: vec![],
            ..Default::default()
        }]
    );
    assert!(log.drain_predictions().is_empty());
}

#[test]
fn predictions_can_drain_one_gid_without_disturbing_others() {
    let mut log = DemLog::new();
    log.push_prediction(DemPrediction {
        gid: 1,
        fired: vec![(10, 0)],
        fired_buffer: vec![],
        flips: vec![],
        ..Default::default()
    });
    log.push_prediction(DemPrediction {
        gid: 2,
        fired: vec![(20, 0)],
        fired_buffer: vec![],
        flips: vec![],
        ..Default::default()
    });
    log.push_prediction(DemPrediction {
        gid: 1,
        fired: vec![(11, 1)],
        fired_buffer: vec![],
        flips: vec![(5, 0)],
        ..Default::default()
    });
    log.push_prediction(DemPrediction {
        gid: 2,
        fired: vec![(21, 1)],
        fired_buffer: vec![],
        flips: vec![],
        ..Default::default()
    });

    assert_eq!(
        log.drain_predictions_for(1),
        vec![
            DemPrediction {
                gid: 1,
                seq: 0,
                fired: vec![(10, 0)],
                fired_buffer: vec![],
                flips: vec![],
                ..Default::default()
            },
            DemPrediction {
                gid: 1,
                seq: 2,
                fired: vec![(11, 1)],
                fired_buffer: vec![],
                flips: vec![(5, 0)],
                ..Default::default()
            }
        ]
    );
    assert_eq!(
        log.drain_predictions(),
        vec![
            DemPrediction {
                gid: 2,
                seq: 1,
                fired: vec![(20, 0)],
                fired_buffer: vec![],
                flips: vec![],
                ..Default::default()
            },
            DemPrediction {
                gid: 2,
                seq: 3,
                fired: vec![(21, 1)],
                fired_buffer: vec![],
                flips: vec![],
                ..Default::default()
            }
        ],
        "non-matching predictions stay queued in original relative order"
    );
}

#[test]
fn push_prediction_assigns_monotone_seq_and_reset_restarts_it() {
    let mut log = DemLog::new();
    let report = |gid| DemPrediction {
        gid,
        ..Default::default()
    };
    log.push_prediction(report(10));
    log.push_prediction(report(11));
    let drained = log.drain_predictions();
    assert_eq!(drained.iter().map(|p| p.seq).collect::<Vec<_>>(), vec![0, 1]);
    // seq keeps counting across drains within a shot...
    log.push_prediction(report(12));
    assert_eq!(log.drain_predictions()[0].seq, 2);
    // ...and restarts after reset (a new shot).
    log.reset();
    log.push_prediction(report(13));
    assert_eq!(log.drain_predictions()[0].seq, 0);
}

#[test]
fn push_prediction_is_a_noop_when_disabled() {
    let mut log = DemLog::new();
    log.set_enabled(false);
    log.push_prediction(DemPrediction {
        gid: 1,
        ..Default::default()
    });
    assert!(log.drain_predictions().is_empty());
}

#[test]
fn reset_clears_everything() {
    let mut log = DemLog::new();
    log.on_check_model(1, 1, 3);
    log.push_prediction(DemPrediction {
        gid: 1,
        fired: vec![],
        fired_buffer: vec![],
        flips: vec![],
        ..Default::default()
    });
    log.reset();
    assert_eq!(log.drain(), DemDrain::default());
    assert!(log.drain_predictions().is_empty());
}

#[test]
fn disabled_log_records_nothing_and_survives_reset() {
    let mut log = DemLog::new();
    assert!(log.is_enabled());
    log.set_enabled(false);
    log.on_check_model(1, 1, 3);
    log.on_error_model(1, 10, 1, vec![local_error(0.01, &[0])], &vec![]);
    log.on_remote_resolved(10, 0, 7);
    log.push_prediction(DemPrediction {
        gid: 1,
        fired: vec![(10, 0)],
        fired_buffer: vec![],
        flips: vec![],
        ..Default::default()
    });
    assert_eq!(log.drain(), DemDrain::default());
    assert!(log.drain_predictions().is_empty());
    assert!(!log.has_pending());
    // reset() clears data but keeps the mode chosen for the run
    log.reset();
    assert!(!log.is_enabled());
    log.set_enabled(true);
    log.on_check_model(1, 1, 3);
    assert_eq!(log.drain().detector_groups.len(), 1);
}

#[test]
fn effective_errors_folds_dense_and_sparse_probability_modifiers() {
    let etype = ErrorModelType {
        errors: vec![local_error(0.1, &[0]), local_error(0.2, &[1]), local_error(0.3, &[2])],
        ..Default::default()
    };
    let instance = ErrorModel {
        modifier: Some(ErrorModelModifier {
            probability_modifier: Some(ProbabilityModifier {
                probabilities: vec![p(0.4), p(0.5), p(0.6)],
                sparse_indices: vec![2],
                sparse_probabilities: vec![p(0.9)],
            }),
            ..Default::default()
        }),
        ..Default::default()
    };
    let probabilities: Vec<f64> = effective_errors(&etype, &instance).iter().map(|e| f64::from_bits(e.probability.bits)).collect();
    assert_eq!(probabilities, vec![0.4, 0.5, 0.9], "dense overwrite, then sparse on top");
    // no modifier -> unchanged
    let plain = effective_errors(&etype, &ErrorModel::default());
    assert_eq!(plain[0].probability, p(0.1));
}

// --- prediction_flips: the commit-region rule ------------------------
//
// Fixture: two check models, one detector each. Local vertex layout:
//   start_indices = [0, 1, 2]  (cid slot 0 -> v0, slot 1 -> v1, sentinel 2)
//   global_cid_of = [10, 11]   (local cid 0 -> global 10, local cid 1 -> 11)
// So vertex 0 = detector (10, 0), vertex 1 = detector (11, 0).
const STARTS: [usize; 3] = [0, 1, 2];
const GCID: [u64; 2] = [10, 11];

fn flips(
    subgraph: &[u64],
    edges: &[Vec<u64>],
    committed: Option<&[bool]>,
    committing: Option<&IdSet>,
) -> Vec<(u64, u64)> {
    prediction_flips(subgraph, edges, committed, committing, &STARTS, &GCID)
}

#[test]
fn flips_monolithic_counts_every_vertex() {
    // No commit info (monolithic): every fired hyperedge vertex counts.
    let edges = vec![vec![0u64, 1], vec![0]];
    // fire both: v0 twice -> cancels, v1 once -> stays
    assert_eq!(flips(&[0, 1], &edges, None, None), vec![(11, 0)]);
}

#[test]
fn flips_of_joined_decodes_are_the_difference() {
    let edges = vec![vec![0u64, 1], vec![0], vec![1]];
    assert_eq!(flips(&[0], &edges, None, None), vec![(10, 0), (11, 0)]);
    assert_eq!(flips(&[2], &edges, None, None), vec![(11, 0)]);
    assert_eq!(flips(&[0, 2], &edges, None, None), vec![(10, 0)]);
    // neither the order nor a pair of equal entries makes a difference
    assert_eq!(flips(&[2, 0], &edges, None, None), vec![(10, 0)]);
    assert_eq!(flips(&[2, 1, 0, 1], &edges, None, None), vec![(10, 0)]);
}

#[test]
fn flips_committed_edge_counts_all_its_vertices() {
    // A committed edge toggles both its local (commit) and remote (buffer)
    // detectors - the syndrome modification the coordinator applies.
    let committing = IdSet::from_ids(&vec![10]); // only cid 10 commits
    let edges = vec![vec![0u64, 1]]; // committed edge owns v0(commit), touches v1(buffer)
    let committed = [true];
    assert_eq!(
        flips(&[0], &edges, Some(&committed), Some(&committing)),
        vec![(10, 0), (11, 0)],
    );
}

#[test]
fn flips_buffer_edge_counts_only_commit_region_vertices() {
    // cid 10 commits, cid 11 is buffer.
    let committing = IdSet::from_ids(&vec![10]);
    // one committed edge on v0, one BUFFER edge touching v0 (commit) and v1 (buffer)
    let edges = vec![vec![0u64], vec![0u64, 1]];
    let committed = [true, false];
    // v0: committed edge (counted) XOR buffer edge's commit-region vertex
    //     (counted) = cancels. v1: buffer edge's buffer vertex = NOT counted.
    // So nothing survives - the commit-region detector cools, the buffer
    // detector waits for its own window.
    assert_eq!(flips(&[0, 1], &edges, Some(&committed), Some(&committing)), vec![]);
}

#[test]
fn flips_buffer_edge_lone_commit_vertex_survives() {
    // A buffer edge touching a commit-region detector once (nothing cancels)
    // MUST flip it - else that detector is left permanently hot.
    let committing = IdSet::from_ids(&vec![10]);
    let edges = vec![vec![0u64, 1]]; // buffer edge: v0 commit, v1 buffer
    let committed = [false];
    assert_eq!(
        flips(&[0], &edges, Some(&committed), Some(&committing)),
        vec![(10, 0)],
        "buffer edge's commit-region vertex is counted; its buffer vertex is not",
    );
}

#[test]
fn flips_buffer_edge_pure_buffer_is_ignored() {
    // A buffer edge touching only buffer detectors contributes nothing.
    let committing = IdSet::from_ids(&vec![10]);
    let edges = vec![vec![1u64]]; // buffer edge on v1 (buffer) only
    let committed = [false];
    assert_eq!(flips(&[0], &edges, Some(&committed), Some(&committing)), vec![]);
}

// Telescoping: simulate a detector d committed in window Wk after being
// modified as a buffer detector in an earlier window Wj. Accumulating the
// per-window flips must XOR to the raw syndrome bit. Here detector (10,0):
//   raw = 1. Wj (buffer): a committed edge remote-toggles it -> mod = 1.
//   Wk (commit): stored = raw ^ mod = 0, plus a buffer edge touches it once
//   -> the decode fires a committed edge + buffer edge, netting the emitted
//   flip. Sum over windows must equal raw.
#[test]
fn flips_telescope_to_raw_across_windows() {
    // Wj: (10,0) is a BUFFER detector; a committed edge (owned by cid 11)
    // remote-toggles it. committing = {11}. Local layout for Wj:
    //   here reuse STARTS/GCID; committed edge = vertex 0 (the (10,0) det)
    //   with a local vertex 1 for its owner. edge = [1, 0], committed.
    let wj_committing = IdSet::from_ids(&vec![11]);
    let wj_edges = vec![vec![1u64, 0u64]]; // owner v1 (cid11, commit) + remote v0 (cid10, buffer)
    let wj = flips(&[0], &wj_edges, Some(&[true]), Some(&wj_committing));
    // emits both (11,0) [owner] and (10,0) [the buffer modification]
    assert!(wj.contains(&(10, 0)));

    // Wk: (10,0) now COMMITS. stored = raw(1) ^ mod(1) = 0. The decode picks
    // a committed edge on v0 AND a buffer edge also on v0 (net 0 = stored).
    let wk_committing = IdSet::from_ids(&vec![10]);
    let wk_edges = vec![vec![0u64], vec![0u64]]; // committed on v0, buffer on v0
    let wk = flips(&[0, 1], &wk_edges, Some(&[true, false]), Some(&wk_committing));
    // committed v0 counted; buffer edge's v0 is commit-region -> counted -> cancels
    assert_eq!(wk, vec![], "Wk nets zero flip on (10,0)");

    // accumulate Wj + Wk parity on (10,0): 1 ^ 0 = 1 = raw. 
    let mut parity = 0u8;
    for f in wj.iter().chain(wk.iter()) {
        if *f == (10, 0) {
            parity ^= 1;
        }
    }
    assert_eq!(parity, 1, "flips telescope to raw syndrome bit");
}
