//! Runtime of a dynamic quantum error correction system.
pub mod collections;
pub mod order;
pub mod bit_vector;
pub mod registry;
pub mod probability;
pub mod bin;
pub mod dem;
pub mod dem_access;
pub mod dem_log;
pub mod network;
pub mod remote;
pub mod detectors;
pub mod relative;
pub mod hypergraph;
pub mod merge;
pub mod prediction;
pub mod prepare;
pub mod window_region;
pub mod window_explore;
pub mod expansion;
pub mod frames;
pub mod status;
pub mod library;
pub mod union_find;
pub mod program;
pub mod generator;
pub mod coordinator;
pub mod monolithic;
pub mod subgraph;
pub mod window_program;
pub mod readouts;
pub mod monolithic_decode;
pub mod organisation;
pub mod guards;
pub mod referrals;
pub mod window;
pub mod window_commit;
pub mod window_decode;
pub mod syndromes;
pub mod encode;
pub mod sequencer;
pub mod jit;
pub mod jit_checks;
pub mod jit_compiler;
pub mod jit_errors;
pub mod jit_progress;
pub mod type_cache;
pub mod jit_controller;
pub mod static_controller;
pub mod mock_coordinator;
pub mod naive_coordinator;
pub mod clock;
pub mod timing;
pub mod cache_key;
pub mod reuse;
pub mod decode_plan;
pub mod naive_decoder;
pub mod mock_decoder;
pub mod thread_pooling;
pub mod dyn_lib_decoder;
pub mod relay_bp_decoder;
pub mod python_decoder;
