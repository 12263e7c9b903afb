//! The gadgets, check models and error models of a running program, and how they
//! refer to each other.
use crate::bin;
use crate::bin::{Connector, Port, RemoteCheckModel, RemoteGadget};
use crate::bit_vector::BitVector;
use vstd::prelude::*;

verus! {

/// The life of a gadget in window decoding.
#[derive(Debug, Clone, Copy, PartialEq, Eq, Structural)]
pub enum GadgetState {
    /// in no commit region yet
    Uncommitted,
    /// in a window that is being decoded; `leader_gid` drives the decode
    Decoding { leader_gid: u64 },
    /// decoded, corrections applied
    Committed,
}

/// A gadget of a running program.
#[derive(Debug, Clone, PartialEq, Eq)]
pub struct Gadget {
    pub instance: bin::Gadget,
    /// the measurement outcomes, once they have arrived
    pub outcomes: Option<BitVector>,
    /// whether decoding was requested; outcomes alone do not make a gadget ready
    pub decode_ready: bool,
    /// the check model bound to this gadget
    pub binding_cid: Option<u64>,
    /// the peer input connected to each output port
    pub outputs: Vec<Option<Connector>>,
    /// the corrected readouts, once they are known
    pub pauli_frame: Option<BitVector>,
    /// whether the gadget adds nothing to hop distances
    pub is_free_hop: bool,
    pub state: GadgetState,
}

/// A check model of a running program.
#[derive(Debug, Clone, PartialEq, Eq)]
pub struct CheckModel {
    pub instance: bin::CheckModel,
    /// the error models attached to this check model
    pub attaching_eid_vec: Vec<u64>,
    /// the remote gadgets, overrides applied
    pub modified_remote_gadgets: Vec<Option<RemoteGadget>>,
    /// the gadgets that the remote gadgets stand for, once they are known
    pub expanded_remote_gadgets: Option<Vec<Option<u64>>>,
    /// the check values, once they are known
    pub syndrome: Option<BitVector>,
    /// error models of other gadgets that refer to this check model
    pub referring_eids: Vec<u64>,
}

/// An error model of a running program.
#[derive(Debug, Clone, PartialEq, Eq)]
pub struct ErrorModel {
    pub instance: bin::ErrorModel,
    /// the remote check models, overrides applied
    pub modified_remote_check_models: Vec<Option<RemoteCheckModel>>,
    /// the check models that they stand for, once they are known
    pub expanded_remote_check_models: Option<Vec<Option<u64>>>,
}

impl Gadget {
    /// Whether the gadget is connected to `gid`.
    pub open spec fn has_peer(self, gid: u64) -> bool {
        ||| exists|i: int| 0 <= i < self.instance.connectors@.len() && (#[trigger] self.instance.connectors@[i]).gid == gid
        ||| exists|i: int|
            0 <= i < self.outputs@.len() && (#[trigger] self.outputs@[i]) is Some && self.outputs@[i]->0.gid == gid
    }
}

/// Where a port leads.
pub enum Hop {
    /// to this gadget
    At(u64),
    /// nowhere yet
    Open,
    /// there is no such gadget or port
    Fault,
}

/// Where port `port` of gadget `from` leads.
pub open spec fn hop(gadgets: Map<u64, Gadget>, from: u64, port: Port) -> Hop {
    if !gadgets.contains_key(from) {
        Hop::Fault
    } else {
        match port {
            Port::Output(p) => if p < gadgets[from].outputs@.len() {
                match gadgets[from].outputs@[p as int] {
                    Some(c) => Hop::At(c.gid),
                    None => Hop::Open,
                }
            } else {
                Hop::Fault
            },
            Port::Input(p) => if p < gadgets[from].instance.connectors@.len() {
                Hop::At(gadgets[from].instance.connectors@[p as int].gid)
            } else {
                Hop::Fault
            },
        }
    }
}

} // verus!
