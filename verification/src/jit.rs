//! The input of just-in-time compilation: gadget types whose checks and errors refer
//! to what the neighbours of a gadget bring along.
use crate::bin;
use crate::bin::{GadgetType, PortType, ProbabilityModifier};
use crate::probability::Probability;
use vstd::prelude::*;

verus! {

/// A measurement of the gadget itself, or an open check at one of its inputs.
#[derive(Debug, Clone, Copy, PartialEq, Eq, Structural)]
pub struct JitMeasurement {
    pub input_port: Option<u64>,
    pub measurement_index: u64,
}

/// A check over measurements and open checks.
#[derive(Debug, Clone, PartialEq, Eq)]
pub struct JitCheck {
    pub naturally_flipped: bool,
    pub measurements: Vec<JitMeasurement>,
}

/// An error mechanism: which finished and unfinished checks it flips, beside its other
/// effects.
#[derive(Debug, Clone, PartialEq, Eq)]
pub struct JitError {
    pub residual: Vec<u64>,
    pub readout_flips: Vec<u64>,
    pub probability: Probability,
    pub finished_checks: Vec<u64>,
    pub unfinished_checks: Vec<u64>,
}

/// A type of ports, with one open check per stabilizer.
#[derive(Debug, Clone, PartialEq, Eq)]
pub struct JitPortType {
    pub base: PortType,
    pub stabilizers: usize,
}

/// A type of gadgets. The unfinished checks are those of the outputs, port by port.
#[derive(Debug, Clone, PartialEq, Eq)]
pub struct JitGadgetType {
    pub base: GadgetType,
    pub finished_checks: Vec<JitCheck>,
    pub unfinished_checks: Vec<JitCheck>,
    pub errors: Vec<JitError>,
}

/// A set of types.
#[derive(Debug, Clone, PartialEq, Eq)]
pub struct JitLibrary {
    pub port_types: Vec<JitPortType>,
    pub gadget_types: Vec<JitGadgetType>,
}

/// One gadget to instantiate.
#[derive(Debug, Clone, PartialEq, Eq)]
pub struct JitInstruction {
    pub gadget: Option<bin::Gadget>,
    pub probability_modifier: Option<ProbabilityModifier>,
}

impl crate::library::Typed for JitPortType {
    open spec fn key(&self) -> u64 {
        self.base.ptype
    }

    fn type_id(&self) -> (id: u64) {
        self.base.ptype
    }
}

impl crate::library::Typed for JitGadgetType {
    open spec fn key(&self) -> u64 {
        self.base.gtype
    }

    fn type_id(&self) -> (id: u64) {
        self.base.gtype
    }
}

} // verus!
