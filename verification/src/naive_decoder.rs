//! A decoder that finds no error.
use vstd::prelude::*;

verus! {

/// The hyperedges that a decoder fires, and how long it took, in nanoseconds.
#[derive(Debug)]
pub struct ParityFactor {
    pub subgraph: Vec<u64>,
    pub compute_ns: u64,
}

/// The decoder has no settings.
#[derive(Debug, Clone, Copy, PartialEq, Eq, Structural)]
pub struct NaiveDecoderConfig {}

/// A decoder that finds no error.
#[derive(Debug, Clone, Copy, PartialEq, Eq, Structural)]
pub struct NaiveDecoder {
    pub config: NaiveDecoderConfig,
}

impl NaiveDecoder {
    /// The decoder.
    pub fn new(config: NaiveDecoderConfig) -> (decoder: NaiveDecoder)
        ensures
            decoder.config == config,
    {
        NaiveDecoder { config }
    }

    /// No hyperedge fires, after the given time.
    pub fn decode(&self, elapsed_ns: u64) -> (factor: ParityFactor)
        ensures
            factor.subgraph@ == Seq::<u64>::empty(),
            factor.compute_ns == elapsed_ns,
    {
        ParityFactor { subgraph: Vec::new(), compute_ns: elapsed_ns }
    }

    /// Every problem is loaded under the same number.
    pub fn load_hypergraph(&self) -> (hid: u64)
        ensures
            hid == 1,
    {
        1
    }
}

} // verus!
