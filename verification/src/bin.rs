//! The program model: libraries of port, gadget, check model and error model
//! types, and the instructions that instantiate them.
use crate::probability::Probability;
use vstd::prelude::*;

verus! {

/// The type number that stands for any type.
pub const WILDCARD: u64 = 0;

/// One end of a connection: a gadget and one of its ports.
#[derive(Debug, Clone, Copy, PartialEq, Eq, Default, Structural)]
pub struct Connector {
    pub gid: u64,
    pub port: u64,
}

/// A port of a gadget, seen from that gadget.
#[derive(Debug, Clone, Copy, PartialEq, Eq, Structural)]
pub enum Port {
    Input(u64),
    Output(u64),
}

/// A type of ports; `observables` counts the observables that a port carries.
#[derive(Debug, Clone, PartialEq, Eq, Default)]
pub struct PortType {
    pub ptype: u64,
    pub observables: u64,
}

/// One logical readout: the parity of some measurements.
#[derive(Debug, Clone, PartialEq, Eq, Default)]
pub struct Readout {
    pub measurement_indices: Vec<u64>,
}

/// A matrix of bits, packed row by row.
#[derive(Debug, Clone, PartialEq, Eq, Default)]
pub struct BitMatrix {
    pub rows: u64,
    pub cols: u64,
    pub data: Vec<u8>,
}

/// How corrections travel through the gadgets of a type. The tracker of Pauli frames reads
/// it; here it is handed on.
#[derive(Debug, Clone, PartialEq, Eq, Default)]
pub struct Propagation {
    pub correction_propagation: Option<BitMatrix>,
    pub readout_propagation: Option<BitMatrix>,
    pub logical_correction: Option<BitMatrix>,
    pub physical_correction: Option<BitMatrix>,
}

/// A type of gadgets.
#[derive(Debug, Clone, PartialEq, Eq, Default)]
pub struct GadgetType {
    pub gtype: u64,
    /// the port type of each input
    pub inputs: Vec<u64>,
    /// the port type of each output
    pub outputs: Vec<u64>,
    pub num_measurements: u64,
    pub readouts: Vec<Readout>,
    /// whether the gadget adds nothing to hop distances; by default, whether it
    /// measures nothing
    pub is_free_hop: Option<bool>,
    pub propagation: Propagation,
}

/// A measurement of the gadget itself, or of one of its remote gadgets.
#[derive(Debug, Clone, Copy, PartialEq, Eq, Default, Structural)]
pub struct RemoteMeasurement {
    pub remote_gadget: Option<u64>,
    pub measurement_index: u64,
}

/// A parity check over measurements.
#[derive(Debug, Clone, PartialEq, Eq, Default)]
pub struct Check {
    pub measurements: Vec<RemoteMeasurement>,
    pub naturally_flipped: bool,
}

/// How a check model reaches another gadget.
#[derive(Debug, Clone, Copy, PartialEq, Eq, Default, Structural)]
pub struct RemoteGadget {
    pub port: Option<Port>,
    pub previous_remote_gadget: Option<u64>,
    pub absolute_gid: Option<u64>,
    /// the type that the gadget is expected to have
    pub expecting_gtype: u64,
    pub measurement_bias: u64,
}

/// A type of check models.
#[derive(Debug, Clone, PartialEq, Eq, Default)]
pub struct CheckModelType {
    pub ctype: u64,
    pub gtype: u64,
    pub checks: Vec<Check>,
    pub remote_gadgets: Vec<RemoteGadget>,
}

/// A check of the owning check model, or of one of its remote check models.
#[derive(Debug, Clone, Copy, PartialEq, Eq, Default, Structural)]
pub struct RemoteCheck {
    pub remote_check_model: Option<u64>,
    pub check_index: u64,
}

/// An error mechanism.
#[derive(Debug, Clone, PartialEq, Eq, Default)]
pub struct Error {
    pub checks: Vec<RemoteCheck>,
    pub residual: Vec<u64>,
    pub readout_flips: Vec<u64>,
    pub probability: Probability,
}

/// How an error model reaches another check model.
#[derive(Debug, Clone, Copy, PartialEq, Eq, Default, Structural)]
pub struct RemoteCheckModel {
    pub port: Option<Port>,
    pub previous_remote_check_model: Option<u64>,
    pub absolute_cid: Option<u64>,
    /// the type that the check model is expected to have
    pub expecting_ctype: u64,
    pub check_bias: u64,
}

/// A type of error models.
#[derive(Debug, Clone, PartialEq, Eq, Default)]
pub struct ErrorModelType {
    pub etype: u64,
    pub ctype: u64,
    pub errors: Vec<Error>,
    pub remote_check_models: Vec<RemoteCheckModel>,
}

/// An instance of a gadget type.
#[derive(Debug, Clone, PartialEq, Eq, Default)]
pub struct Gadget {
    pub gid: u64,
    pub gtype: u64,
    /// the peer output connected to each input
    pub connectors: Vec<Connector>,
    /// what the instance changes in its type, in encoded form. The tracker of Pauli frames
    /// reads it; here it is handed on.
    pub modifier: Option<Vec<u8>>,
}

/// A remote gadget slot that an instance overrides; no value removes the slot.
#[derive(Debug, Clone, Copy, PartialEq, Eq, Default, Structural)]
pub struct RerouteRemoteGadget {
    pub remote_gadget_index: u64,
    pub value: Option<RemoteGadget>,
}

/// What a check model instance changes in its type.
#[derive(Debug, Clone, PartialEq, Eq, Default)]
pub struct CheckModelModifier {
    pub reroute_remote_gadgets: Vec<RerouteRemoteGadget>,
}

/// An instance of a check model type, bound to a gadget.
#[derive(Debug, Clone, PartialEq, Eq, Default)]
pub struct CheckModel {
    pub cid: u64,
    pub ctype: u64,
    pub gid: u64,
    pub modifier: Option<CheckModelModifier>,
}

/// A remote check model slot that an instance overrides; no value removes the slot.
#[derive(Debug, Clone, Copy, PartialEq, Eq, Default, Structural)]
pub struct RerouteRemoteCheckModel {
    pub remote_check_model_index: u64,
    pub value: Option<RemoteCheckModel>,
}

/// Probabilities that an instance overrides: a dense prefix, then single entries.
#[derive(Debug, Clone, PartialEq, Eq, Default)]
pub struct ProbabilityModifier {
    pub probabilities: Vec<Probability>,
    pub sparse_indices: Vec<u64>,
    pub sparse_probabilities: Vec<Probability>,
}

/// What an error model instance changes in its type.
#[derive(Debug, Clone, PartialEq, Eq, Default)]
pub struct ErrorModelModifier {
    pub probability_modifier: Option<ProbabilityModifier>,
    pub reroute_remote_check_models: Vec<RerouteRemoteCheckModel>,
}

/// An instance of an error model type, attached to a check model.
#[derive(Debug, Clone, PartialEq, Eq, Default)]
pub struct ErrorModel {
    pub eid: u64,
    pub etype: u64,
    pub cid: u64,
    pub modifier: Option<ErrorModelModifier>,
}

/// What an instruction creates.
#[derive(Debug, Clone, PartialEq, Eq)]
pub enum Create {
    Gadget(Gadget),
    CheckModel(CheckModel),
    ErrorModel(ErrorModel),
}

/// One step of a program.
#[derive(Debug, Clone, PartialEq, Eq, Default)]
pub struct Instruction {
    pub create: Option<Create>,
}

/// A set of types and a program over them.
#[derive(Debug, Clone, PartialEq, Eq, Default)]
pub struct Library {
    pub port_types: Vec<PortType>,
    pub gadget_types: Vec<GadgetType>,
    pub check_model_types: Vec<CheckModelType>,
    pub error_model_types: Vec<ErrorModelType>,
    pub program: Vec<Instruction>,
}

/// The value of an [`Error`].
#[verifier::ext_equal]
pub struct ErrorSpec {
    pub checks: Seq<RemoteCheck>,
    pub residual: Seq<u64>,
    pub readout_flips: Seq<u64>,
    pub probability: Probability,
}

/// The value of a [`Check`].
#[verifier::ext_equal]
pub struct CheckSpec {
    pub measurements: Seq<RemoteMeasurement>,
    pub naturally_flipped: bool,
}

impl Error {
    /// The mechanism as a mathematical value.
    pub open spec fn view(self) -> ErrorSpec {
        ErrorSpec {
            checks: self.checks@,
            residual: self.residual@,
            readout_flips: self.readout_flips@,
            probability: self.probability,
        }
    }

    /// A copy of the mechanism.
    pub fn copy(&self) -> (e: Error)
        ensures
            e@ == self@,
    {
        Error {
            checks: copy_vec(&self.checks),
            residual: copy_vec(&self.residual),
            readout_flips: copy_vec(&self.readout_flips),
            probability: self.probability,
        }
    }
}

impl Check {
    /// The check as a mathematical value.
    pub open spec fn view(self) -> CheckSpec {
        CheckSpec { measurements: self.measurements@, naturally_flipped: self.naturally_flipped }
    }

    /// A copy of the check.
    pub fn copy(&self) -> (c: Check)
        ensures
            c@ == self@,
    {
        Check { measurements: copy_vec(&self.measurements), naturally_flipped: self.naturally_flipped }
    }
}

/// The values of a list of mechanisms.
pub open spec fn errors_view(errors: Seq<Error>) -> Seq<ErrorSpec> {
    errors.map_values(|e: Error| e@)
}

/// The values of a list of checks.
pub open spec fn checks_view(checks: Seq<Check>) -> Seq<CheckSpec> {
    checks.map_values(|c: Check| c@)
}

/// A copy of a vector.
pub fn copy_vec<T: Copy>(v: &Vec<T>) -> (copy: Vec<T>)
    ensures
        copy@ == v@,
{
    let mut copy: Vec<T> = Vec::new();
    let mut i: usize = 0;
    while i < v.len()
        invariant
            i <= v@.len(),
            copy@ == v@.take(i as int),
        decreases v@.len() - i,
    {
        copy.push(v[i]);
        assert(v@.take(i as int + 1) =~= v@.take(i as int).push(v@[i as int]));
        i += 1;
    }
    assert(v@.take(v@.len() as int) =~= v@);
    copy
}

/// A copy of a list of mechanisms.
pub fn copy_errors(errors: &Vec<Error>) -> (copy: Vec<Error>)
    ensures
        errors_view(copy@) == errors_view(errors@),
{
    let mut copy: Vec<Error> = Vec::new();
    let mut i: usize = 0;
    while i < errors.len()
        invariant
            i <= errors@.len(),
            errors_view(copy@) =~= errors_view(errors@).take(i as int),
        decreases errors@.len() - i,
    {
        let ghost before = copy@;
        copy.push(errors[i].copy());
        proof {
            assert(errors_view(copy@) =~= errors_view(before).push(errors@[i as int]@));
            assert(errors_view(errors@).take(i as int + 1) =~= errors_view(errors@).take(i as int).push(errors@[i as int]@));
        }
        i += 1;
    }
    copy
}

/// A copy of a list of checks.
pub fn copy_checks(checks: &Vec<Check>) -> (copy: Vec<Check>)
    ensures
        checks_view(copy@) == checks_view(checks@),
{
    let mut copy: Vec<Check> = Vec::new();
    let mut i: usize = 0;
    while i < checks.len()
        invariant
            i <= checks@.len(),
            checks_view(copy@) =~= checks_view(checks@).take(i as int),
        decreases checks@.len() - i,
    {
        let ghost before = copy@;
        copy.push(checks[i].copy());
        proof {
            assert(checks_view(copy@) =~= checks_view(before).push(checks@[i as int]@));
            assert(checks_view(checks@).take(i as int + 1) =~= checks_view(checks@).take(i as int).push(checks@[i as int]@));
        }
        i += 1;
    }
    copy
}

} // verus!
