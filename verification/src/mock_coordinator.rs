//! A coordinator that records what it is asked to do, and shows what the instances come
//! to with their overrides applied.
use crate::bin;
use crate::bin::{
    checks_view, copy_checks, errors_view, Check, CheckModelModifier, CheckModelType, CheckSpec, Connector, Create, Error, ErrorModelModifier,
    ErrorModelType, ErrorSpec, Instruction, Library, Port, RemoteCheck, RemoteMeasurement,
};
use crate::bit_vector::zeros;
use crate::collections::PortMap;
use crate::coordinator::{Readouts, ResetRequest};
use crate::dem::{effective_errors, effective_errors_spec, modifier_fits};
use crate::hypergraph::check_modifier_fits;
use crate::library::Typed;
use crate::program::{assign_id, assigned, has_free_id};
use crate::registry::Registry;
use crate::remote::{
    check_model_slots, check_model_slots_of, gadget_slots, gadget_slots_of, modified_check_models_spec, modified_gadgets_spec,
    modified_remote_check_models, modified_remote_gadgets, Reach, Slot, Target,
};
use crate::status::{Status, StatusCode};
use vstd::prelude::*;

verus! {

/// Where a type stands: which library brought it, and in which row.
#[derive(Debug, Clone, Copy, PartialEq, Eq, Structural)]
pub struct Position {
    pub library: usize,
    pub row: usize,
}

/// What the coordinator was asked to do. Types and instances are found by their
/// numbers; where a number was used twice, the later one counts.
pub struct MockCoordinatorState {
    /// all libraries that were loaded
    pub libraries: Vec<Library>,
    /// all instructions that were executed
    pub instructions: Vec<Instruction>,
    pub next_gid: u64,
    pub next_cid: u64,
    pub next_eid: u64,
    pub gadget_types: Registry<Position>,
    pub check_model_types: Registry<Position>,
    pub error_model_types: Registry<Position>,
    /// the instruction that created each gadget
    pub gadgets: Registry<usize>,
    /// the instruction that created each check model
    pub check_models: Registry<usize>,
    /// the instruction that created each error model
    pub error_models: Registry<usize>,
    /// the gadget that each connected output leads to
    pub outputs: PortMap,
}

/// Positions lead to types with the right numbers.
pub open spec fn positions_fit<T: Typed>(table: Map<u64, Position>, rows: spec_fn(int) -> Seq<T>, count: int) -> bool {
    forall|id: u64| #[trigger]
        table.contains_key(id) ==> {
            &&& table[id].library < count
            &&& table[id].row < rows(table[id].library as int).len()
            &&& rows(table[id].library as int)[table[id].row as int].key() == id
        }
}

/// The positions after the first `n` types of library `library` were loaded.
pub open spec fn positions_after<T: Typed>(before: Map<u64, Position>, types: Seq<T>, library: usize, n: int) -> Map<u64, Position>
    decreases n,
{
    if n <= 0 {
        before
    } else {
        positions_after(before, types, library, n - 1).insert(types[n - 1].key(), Position { library, row: (n - 1) as usize })
    }
}

/// Notes the positions of the types of a library.
fn note_positions<T: Typed>(table: &mut Registry<Position>, types: &Vec<T>, library: usize)
    requires
        old(table).wf(),
    ensures
        final(table).wf(),
        final(table)@ == positions_after(old(table)@, types@, library, types@.len() as int),
{
    let mut n: usize = 0;
    while n < types.len()
        invariant
            n <= types@.len(),
            table.wf(),
            table@ == positions_after(old(table)@, types@, library, n as int),
        decreases types@.len() - n,
    {
        table.insert(types[n].type_id(), Position { library, row: n });
        n += 1;
    }
}

/// The outputs after the first `n` connectors of gadget `gid` were noted.
pub open spec fn outputs_after(before: Map<(u64, u64), u64>, connectors: Seq<Connector>, gid: u64, n: int) -> Map<(u64, u64), u64>
    decreases n,
{
    if n <= 0 {
        before
    } else {
        outputs_after(before, connectors, gid, n - 1).insert((connectors[n - 1].gid, connectors[n - 1].port), gid)
    }
}

/// An instruction creates a gadget.
pub open spec fn is_gadget(instruction: Instruction) -> bool {
    instruction.create is Some && instruction.create->0 is Gadget
}

/// An instruction creates a check model.
pub open spec fn is_check_model(instruction: Instruction) -> bool {
    instruction.create is Some && instruction.create->0 is CheckModel
}

/// An instruction creates an error model.
pub open spec fn is_error_model(instruction: Instruction) -> bool {
    instruction.create is Some && instruction.create->0 is ErrorModel
}

/// What executing an instruction comes to.
#[derive(Debug)]
pub enum MockAnswer {
    /// the id of the new instance
    Id(u64),
    /// the request is answered with this failure
    Status(Status),
    /// no library brought the type that the instance is to have
    UnknownType(u64),
}

impl MockCoordinatorState {
    /// The gadget types of a library.
    pub open spec fn gadget_type_rows(&self) -> spec_fn(int) -> Seq<bin::GadgetType> {
        |i: int| self.libraries@[i].gadget_types@
    }

    /// The check model types of a library.
    pub open spec fn check_model_type_rows(&self) -> spec_fn(int) -> Seq<CheckModelType> {
        |i: int| self.libraries@[i].check_model_types@
    }

    /// The error model types of a library.
    pub open spec fn error_model_type_rows(&self) -> spec_fn(int) -> Seq<ErrorModelType> {
        |i: int| self.libraries@[i].error_model_types@
    }

    /// The state's invariant: every position leads where it says.
    pub open spec fn wf(&self) -> bool {
        &&& self.gadget_types.wf()
        &&& self.check_model_types.wf()
        &&& self.error_model_types.wf()
        &&& self.gadgets.wf()
        &&& self.check_models.wf()
        &&& self.error_models.wf()
        &&& positions_fit(self.gadget_types@, self.gadget_type_rows(), self.libraries@.len() as int)
        &&& positions_fit(self.check_model_types@, self.check_model_type_rows(), self.libraries@.len() as int)
        &&& positions_fit(self.error_model_types@, self.error_model_type_rows(), self.libraries@.len() as int)
        &&& forall|id: u64| #[trigger]
            self.gadgets@.contains_key(id) ==> self.gadgets@[id] < self.instructions@.len()
                && is_gadget(self.instructions@[self.gadgets@[id] as int])
        &&& forall|id: u64| #[trigger]
            self.check_models@.contains_key(id) ==> self.check_models@[id] < self.instructions@.len()
                && is_check_model(self.instructions@[self.check_models@[id] as int])
        &&& forall|id: u64| #[trigger]
            self.error_models@.contains_key(id) ==> self.error_models@[id] < self.instructions@.len()
                && is_error_model(self.instructions@[self.error_models@[id] as int])
    }

    /// The check model type with a number.
    pub open spec fn check_model_type(&self, ctype: u64) -> CheckModelType {
        let at = self.check_model_types@[ctype];
        self.libraries@[at.library as int].check_model_types@[at.row as int]
    }

    /// The error model type with a number.
    pub open spec fn error_model_type(&self, etype: u64) -> ErrorModelType {
        let at = self.error_model_types@[etype];
        self.libraries@[at.library as int].error_model_types@[at.row as int]
    }

    /// The connectors of a gadget.
    pub open spec fn connectors(&self, gid: u64) -> Seq<Connector> {
        self.instructions@[self.gadgets@[gid] as int].create->0->Gadget_0.connectors@
    }

    /// The request that created a check model.
    pub open spec fn check_model(&self, cid: u64) -> bin::CheckModel {
        self.instructions@[self.check_models@[cid] as int].create->0->CheckModel_0
    }

    /// The request that created an error model.
    pub open spec fn error_model(&self, eid: u64) -> bin::ErrorModel {
        self.instructions@[self.error_models@[eid] as int].create->0->ErrorModel_0
    }

    /// Nothing was recorded.
    pub open spec fn is_empty(&self) -> bool {
        &&& self.no_program()
        &&& self.libraries@.len() == 0
        &&& self.gadget_types@ == Map::<u64, Position>::empty()
        &&& self.check_model_types@ == Map::<u64, Position>::empty()
        &&& self.error_model_types@ == Map::<u64, Position>::empty()
    }

    /// No instruction was recorded.
    pub open spec fn no_program(&self) -> bool {
        &&& self.instructions@.len() == 0
        &&& self.gadgets@ == Map::<u64, usize>::empty()
        &&& self.check_models@ == Map::<u64, usize>::empty()
        &&& self.error_models@ == Map::<u64, usize>::empty()
        &&& self.outputs@ == Map::<(u64, u64), u64>::empty()
        &&& self.next_gid == 1
        &&& self.next_cid == 1
        &&& self.next_eid == 1
    }

    /// A coordinator that was asked nothing yet.
    pub fn new() -> (state: MockCoordinatorState)
        ensures
            state.wf(),
            state.is_empty(),
    {
        MockCoordinatorState {
            libraries: Vec::new(),
            instructions: Vec::new(),
            next_gid: 1,
            next_cid: 1,
            next_eid: 1,
            gadget_types: Registry::new(),
            check_model_types: Registry::new(),
            error_model_types: Registry::new(),
            gadgets: Registry::new(),
            check_models: Registry::new(),
            error_models: Registry::new(),
            outputs: PortMap::new(),
        }
    }

    /// Forgets everything.
    pub fn clear(&mut self)
        ensures
            final(self).wf(),
            final(self).is_empty(),
    {
        *self = MockCoordinatorState::new();
    }

    /// Forgets the instructions, and the libraries if they are to be reset.
    pub fn reset(&mut self, flags: ResetRequest)
        requires
            old(self).wf(),
        ensures
            final(self).wf(),
            final(self).no_program(),
            if flags.reset_library {
                final(self).is_empty()
            } else {
                &&& final(self).libraries == old(self).libraries
                &&& final(self).gadget_types == old(self).gadget_types
                &&& final(self).check_model_types == old(self).check_model_types
                &&& final(self).error_model_types == old(self).error_model_types
            },
    {
        if flags.reset_library {
            self.libraries = Vec::new();
            self.gadget_types = Registry::new();
            self.check_model_types = Registry::new();
            self.error_model_types = Registry::new();
        }
        self.instructions = Vec::new();
        self.gadgets = Registry::new();
        self.check_models = Registry::new();
        self.error_models = Registry::new();
        self.outputs = PortMap::new();
        self.next_gid = 1;
        self.next_cid = 1;
        self.next_eid = 1;
    }

    /// Records a library. Its types replace those of the same numbers.
    pub fn load_library(&mut self, library: Library)
        requires
            old(self).wf(),
        ensures
            final(self).wf(),
            final(self).libraries@ == old(self).libraries@.push(library),
            final(self).gadget_types@ == positions_after(
                old(self).gadget_types@,
                library.gadget_types@,
                old(self).libraries.len(),
                library.gadget_types@.len() as int,
            ),
            final(self).check_model_types@ == positions_after(
                old(self).check_model_types@,
                library.check_model_types@,
                old(self).libraries.len(),
                library.check_model_types@.len() as int,
            ),
            final(self).error_model_types@ == positions_after(
                old(self).error_model_types@,
                library.error_model_types@,
                old(self).libraries.len(),
                library.error_model_types@.len() as int,
            ),
            final(self).instructions == old(self).instructions,
            final(self).next_gid == old(self).next_gid,
            final(self).next_cid == old(self).next_cid,
            final(self).next_eid == old(self).next_eid,
            final(self).gadgets == old(self).gadgets,
            final(self).check_models == old(self).check_models,
            final(self).error_models == old(self).error_models,
            final(self).outputs == old(self).outputs,
    {
        let ghost before = *self;
        let at: usize = self.libraries.len();
        note_positions(&mut self.gadget_types, &library.gadget_types, at);
        note_positions(&mut self.check_model_types, &library.check_model_types, at);
        note_positions(&mut self.error_model_types, &library.error_model_types, at);
        let ghost loaded = library;
        proof {
            assert(library.gadget_types.len() == library.gadget_types@.len());
            assert(library.check_model_types.len() == library.check_model_types@.len());
            assert(library.error_model_types.len() == library.error_model_types@.len());
        }
        self.libraries.push(library);
        proof {
            lemma_positions_fit(
                before.gadget_types@,
                loaded.gadget_types@,
                before.gadget_type_rows(),
                self.gadget_type_rows(),
                at,
                loaded.gadget_types@.len() as int,
            );
            lemma_positions_fit(
                before.check_model_types@,
                loaded.check_model_types@,
                before.check_model_type_rows(),
                self.check_model_type_rows(),
                at,
                loaded.check_model_types@.len() as int,
            );
            lemma_positions_fit(
                before.error_model_types@,
                loaded.error_model_types@,
                before.error_model_type_rows(),
                self.error_model_type_rows(),
                at,
                loaded.error_model_types@.len() as int,
            );
        }
    }

    /// What one instruction changes.
    pub open spec fn executed(before: MockCoordinatorState, instruction: Instruction, answer: MockAnswer, after: MockCoordinatorState) -> bool {
        &&& after.libraries == before.libraries
        &&& after.gadget_types == before.gadget_types
        &&& after.check_model_types == before.check_model_types
        &&& after.error_model_types == before.error_model_types
        &&& match answer {
            MockAnswer::Status(status) => after == before && instruction.create is None && status.is(
                StatusCode::InvalidArgument,
                "missing instruction"@,
            ),
            MockAnswer::UnknownType(id) => after == before && match instruction.create {
                None => false,
                Some(Create::Gadget(g)) => id == g.gtype && !before.gadget_types@.contains_key(id),
                Some(Create::CheckModel(c)) => id == c.ctype && !before.check_model_types@.contains_key(id),
                Some(Create::ErrorModel(e)) => id == e.etype && !before.error_model_types@.contains_key(id),
            },
            MockAnswer::Id(id) => {
                let at = before.instructions.len();
                &&& after.instructions@ == before.instructions@.push(instruction)
                &&& match instruction.create {
                    None => false,
                    Some(Create::Gadget(g)) => {
                        &&& before.gadget_types@.contains_key(g.gtype)
                        &&& assigned(g.gid, before.next_gid, before.gadgets@, id, after.next_gid)
                        &&& after.gadgets@ == before.gadgets@.insert(id, at)
                        &&& after.outputs@ == outputs_after(before.outputs@, g.connectors@, id, g.connectors@.len() as int)
                        &&& after.check_models == before.check_models
                        &&& after.error_models == before.error_models
                        &&& after.next_cid == before.next_cid
                        &&& after.next_eid == before.next_eid
                    },
                    Some(Create::CheckModel(c)) => {
                        &&& before.check_model_types@.contains_key(c.ctype)
                        &&& assigned(c.cid, before.next_cid, before.check_models@, id, after.next_cid)
                        &&& after.check_models@ == before.check_models@.insert(id, at)
                        &&& after.gadgets == before.gadgets
                        &&& after.outputs == before.outputs
                        &&& after.error_models == before.error_models
                        &&& after.next_gid == before.next_gid
                        &&& after.next_eid == before.next_eid
                    },
                    Some(Create::ErrorModel(e)) => {
                        &&& before.error_model_types@.contains_key(e.etype)
                        &&& assigned(e.eid, before.next_eid, before.error_models@, id, after.next_eid)
                        &&& after.error_models@ == before.error_models@.insert(id, at)
                        &&& after.gadgets == before.gadgets
                        &&& after.outputs == before.outputs
                        &&& after.check_models == before.check_models
                        &&& after.next_gid == before.next_gid
                        &&& after.next_cid == before.next_cid
                    },
                }
            },
        }
    }

    /// There is an id for the instance that an instruction creates.
    pub open spec fn has_id(&self, instruction: Instruction) -> bool {
        match instruction.create {
            None => true,
            Some(Create::Gadget(g)) => g.gid == 0 ==> has_free_id(self.next_gid, self.gadgets@),
            Some(Create::CheckModel(c)) => c.cid == 0 ==> has_free_id(self.next_cid, self.check_models@),
            Some(Create::ErrorModel(e)) => e.eid == 0 ==> has_free_id(self.next_eid, self.error_models@),
        }
    }

    /// Executes and records an instruction.
    pub fn execute(&mut self, instruction: Instruction) -> (answer: MockAnswer)
        requires
            old(self).wf(),
            old(self).has_id(instruction),
        ensures
            final(self).wf(),
            Self::executed(*old(self), instruction, answer, *final(self)),
    {
        let at: usize = self.instructions.len();
        let ghost before = *self;
        let ghost given = instruction;
        let id: u64 = match &instruction.create {
            None => {
                return MockAnswer::Status(Status::new(StatusCode::InvalidArgument, "missing instruction"));
            },
            Some(Create::Gadget(gadget)) => {
                if !self.gadget_types.contains_key(gadget.gtype) {
                    return MockAnswer::UnknownType(gadget.gtype);
                }
                let gid: u64 = assign_id(gadget.gid, &mut self.next_gid, &self.gadgets);
                let mut n: usize = 0;
                while n < gadget.connectors.len()
                    invariant
                        n <= gadget.connectors@.len(),
                        self.outputs@ == outputs_after(before.outputs@, gadget.connectors@, gid, n as int),
                        *self == (MockCoordinatorState { outputs: self.outputs, next_gid: self.next_gid, ..before }),
                        assigned(gadget.gid, before.next_gid, before.gadgets@, gid, self.next_gid),
                    decreases gadget.connectors@.len() - n,
                {
                    let connector = gadget.connectors[n];
                    self.outputs.insert(connector.gid, connector.port, gid);
                    n += 1;
                }
                self.gadgets.insert(gid, at);
                gid
            },
            Some(Create::CheckModel(check_model)) => {
                if !self.check_model_types.contains_key(check_model.ctype) {
                    return MockAnswer::UnknownType(check_model.ctype);
                }
                let cid: u64 = assign_id(check_model.cid, &mut self.next_cid, &self.check_models);
                self.check_models.insert(cid, at);
                cid
            },
            Some(Create::ErrorModel(error_model)) => {
                if !self.error_model_types.contains_key(error_model.etype) {
                    return MockAnswer::UnknownType(error_model.etype);
                }
                let eid: u64 = assign_id(error_model.eid, &mut self.next_eid, &self.error_models);
                self.error_models.insert(eid, at);
                eid
            },
        };
        self.instructions.push(instruction);
        proof {
            assert forall|k: int| 0 <= k < before.instructions@.len() implies self.instructions@[k] == before.instructions@[k] by {}
            assert forall|g: u64| #[trigger] self.gadgets@.contains_key(g) implies self.gadgets@[g] < self.instructions@.len()
                && is_gadget(self.instructions@[self.gadgets@[g] as int]) by {
                if self.gadgets@[g] != at {
                    assert(before.gadgets@.contains_key(g));
                }
            }
            assert forall|g: u64| #[trigger] self.check_models@.contains_key(g) implies self.check_models@[g] < self.instructions@.len()
                && is_check_model(self.instructions@[self.check_models@[g] as int]) by {
                if self.check_models@[g] != at {
                    assert(before.check_models@.contains_key(g));
                }
            }
            assert forall|g: u64| #[trigger] self.error_models@.contains_key(g) implies self.error_models@[g] < self.instructions@.len()
                && is_error_model(self.instructions@[self.error_models@[g] as int]) by {
                if self.error_models@[g] != at {
                    assert(before.error_models@.contains_key(g));
                }
            }
        }
        MockAnswer::Id(id)
    }

    /// The answer to a decode request: no readouts.
    pub fn decode(&self, gid: u64) -> (readouts: Readouts)
        ensures
            readouts.gid == gid,
            readouts.readouts is Some,
            readouts.readouts->0.wf(),
            readouts.readouts->0@ == Seq::<bool>::empty(),
            readouts.detectors is None,
    {
        let none = zeros(0);
        assert(none@ =~= Seq::<bool>::empty());
        Readouts { gid, readouts: Some(none), detectors: None }
    }
}

/// Loading a library keeps positions right.
proof fn lemma_positions_fit<T: Typed>(
    before: Map<u64, Position>,
    types: Seq<T>,
    rows: spec_fn(int) -> Seq<T>,
    more: spec_fn(int) -> Seq<T>,
    at: usize,
    n: int,
)
    requires
        0 <= n <= types.len() <= usize::MAX,
        positions_fit(before, rows, at as int),
        more(at as int) == types,
        forall|i: int| 0 <= i < at ==> #[trigger] more(i) == rows(i),
    ensures
        positions_fit(positions_after(before, types, at, n), more, at + 1),
    decreases n,
{
    if n > 0 {
        lemma_positions_fit(before, types, rows, more, at, n - 1);
    } else {
        assert forall|id: u64| #[trigger] before.contains_key(id) implies {
            &&& before[id].library < at + 1
            &&& before[id].row < more(before[id].library as int).len()
            &&& more(before[id].library as int)[before[id].row as int].key() == id
        } by {
            assert(more(before[id].library as int) == rows(before[id].library as int));
        }
    }
}

// ---------------------------------------------------------------------------
// Following references
// ---------------------------------------------------------------------------

impl MockCoordinatorState {
    /// Where a port of a gadget leads.
    pub open spec fn mock_port(&self, from: u64, port: Option<Port>) -> Reach {
        match port {
            None => Reach::Fault,
            Some(Port::Output(p)) => match self.outputs@.get((from, p)) {
                Some(gid) => Reach::To(Target::Gadget(gid)),
                None => Reach::Open(Connector { gid: from, port: p }),
            },
            Some(Port::Input(p)) => if self.gadgets@.contains_key(from) && p < self.connectors(from).len() {
                Reach::To(Target::Gadget(self.connectors(from)[p as int].gid))
            } else {
                Reach::Fault
            },
        }
    }

    /// Where slot `ri` leads, following at most `fuel` references. An output of a check
    /// model that is named outright leads nowhere.
    pub open spec fn mock_reach(&self, slots: Seq<Option<Slot>>, owner: u64, ri: int, fuel: nat) -> Reach
        decreases fuel,
    {
        if fuel == 0 || ri < 0 || ri >= slots.len() {
            Reach::Fault
        } else {
            match slots[ri] {
                None => Reach::Removed,
                Some(Slot::Known(target)) => Reach::To(target),
                Some(Slot::Via { previous: None, port }) => self.mock_port(owner, port),
                Some(Slot::Via { previous: Some(p), port }) => match self.mock_reach(slots, owner, p as int, (fuel - 1) as nat) {
                    Reach::To(Target::Gadget(gid)) => self.mock_port(gid, port),
                    Reach::To(Target::CheckModel(_)) => if port is Some && port->0 is Output {
                        Reach::Removed
                    } else {
                        Reach::Fault
                    },
                    _ => Reach::Fault,
                },
            }
        }
    }

    /// Where slot `ri` leads.
    pub open spec fn mock_reach_of(&self, slots: Seq<Option<Slot>>, owner: u64, ri: int) -> Reach {
        self.mock_reach(slots, owner, ri, slots.len())
    }

    /// Follows a port of a gadget.
    fn follow_port(&self, from: u64, port: Option<Port>) -> (found: Reach)
        requires
            self.wf(),
        ensures
            found == self.mock_port(from, port),
    {
        match port {
            None => Reach::Fault,
            Some(Port::Output(p)) => match self.outputs.get(from, p) {
                Some(gid) => Reach::To(Target::Gadget(gid)),
                None => Reach::Open(Connector { gid: from, port: p }),
            },
            Some(Port::Input(p)) => {
                let Some(at) = self.gadgets.get(from) else {
                    return Reach::Fault;
                };
                match &self.instructions[*at].create {
                    Some(Create::Gadget(gadget)) => if p < gadget.connectors.len() as u64 {
                        Reach::To(Target::Gadget(gadget.connectors[p as usize].gid))
                    } else {
                        Reach::Fault
                    },
                    _ => Reach::Fault,
                }
            },
        }
    }

    /// Follows one slot.
    fn follow_slot(&self, slots: &Vec<Option<Slot>>, owner: u64, ri: usize, fuel: usize) -> (found: Reach)
        requires
            self.wf(),
        ensures
            found == self.mock_reach(slots@, owner, ri as int, fuel as nat),
        decreases fuel,
    {
        if fuel == 0 || ri >= slots.len() {
            return Reach::Fault;
        }
        match slots[ri] {
            None => Reach::Removed,
            Some(Slot::Known(target)) => Reach::To(target),
            Some(Slot::Via { previous, port }) => {
                let Some(p) = previous else {
                    return self.follow_port(owner, port);
                };
                if p >= slots.len() as u64 {
                    assert(self.mock_reach(slots@, owner, p as int, (fuel - 1) as nat) is Fault);
                    return Reach::Fault;
                }
                match self.follow_slot(slots, owner, p as usize, fuel - 1) {
                    Reach::To(Target::Gadget(gid)) => self.follow_port(gid, port),
                    Reach::To(Target::CheckModel(_)) => match port {
                        Some(Port::Output(_)) => Reach::Removed,
                        _ => Reach::Fault,
                    },
                    _ => Reach::Fault,
                }
            },
        }
    }

    /// Where one remote gadget of a check model of gadget `owner` is.
    pub fn expand_remote_gadget(&self, slots: &Vec<Option<Slot>>, owner: u64, ri: usize) -> (found: Reach)
        requires
            self.wf(),
        ensures
            found == self.mock_reach_of(slots@, owner, ri as int),
    {
        self.follow_slot(slots, owner, ri, slots.len())
    }

    /// Where one remote check model of an error model of gadget `owner` is: a check model
    /// that is named outright, or the gadget whose check model it is.
    pub fn expand_remote_check_model(&self, slots: &Vec<Option<Slot>>, owner: u64, ri: usize) -> (found: Reach)
        requires
            self.wf(),
        ensures
            found == self.mock_reach_of(slots@, owner, ri as int),
    {
        self.follow_slot(slots, owner, ri, slots.len())
    }

    /// The gadget that a slot stands for, if it leads to one.
    pub open spec fn gadget_at(found: Reach) -> Option<u64> {
        match found {
            Reach::To(Target::Gadget(gid)) => Some(gid),
            _ => None,
        }
    }

    /// The remote gadgets of a check model of gadget `owner`. `None` if a reference is
    /// invalid.
    pub fn expand_remote_gadgets(&self, slots: &Vec<Option<Slot>>, owner: u64) -> (expanded: Option<Vec<Option<u64>>>)
        requires
            self.wf(),
        ensures
            match expanded {
                Some(list) => {
                    &&& list@.len() == slots@.len()
                    &&& forall|ri: int| 0 <= ri < slots@.len() ==> !(#[trigger] self.mock_reach_of(slots@, owner, ri) is Fault)
                    &&& forall|ri: int|
                        0 <= ri < slots@.len() ==> #[trigger] list@[ri] == Self::gadget_at(self.mock_reach_of(slots@, owner, ri))
                },
                None => exists|ri: int| 0 <= ri < slots@.len() && #[trigger] self.mock_reach_of(slots@, owner, ri) is Fault,
            },
    {
        let mut list: Vec<Option<u64>> = Vec::new();
        let mut ri: usize = 0;
        while ri < slots.len()
            invariant
                self.wf(),
                ri <= slots@.len(),
                list@.len() == ri,
                forall|k: int| 0 <= k < ri ==> !(#[trigger] self.mock_reach_of(slots@, owner, k) is Fault),
                forall|k: int|
                    0 <= k < ri ==> #[trigger] list@[k] == Self::gadget_at(self.mock_reach_of(slots@, owner, k)),
            decreases slots@.len() - ri,
        {
            let found = self.expand_remote_gadget(slots, owner, ri);
            assert(found == self.mock_reach_of(slots@, owner, ri as int));
            match found {
                Reach::Fault => {
                    return None;
                },
                Reach::To(Target::Gadget(gid)) => {
                    list.push(Some(gid));
                },
                _ => {
                    list.push(None);
                },
            }
            ri += 1;
        }
        Some(list)
    }

    /// A check model of a gadget.
    pub open spec fn is_bound(&self, gid: u64, cid: u64) -> bool {
        self.check_models@.contains_key(cid) && self.check_model(cid).gid == gid
    }

    /// The check model that a slot stands for: the one that is named outright, or one of
    /// the gadget that the slot leads to, if it has any.
    pub open spec fn check_model_at(&self, found: Reach, cid: Option<u64>) -> bool {
        match found {
            Reach::To(Target::CheckModel(named)) => cid == Some(named),
            Reach::To(Target::Gadget(gid)) => match cid {
                Some(c) => self.is_bound(gid, c),
                None => forall|c: u64| !#[trigger] self.is_bound(gid, c),
            },
            _ => cid is None,
        }
    }

    /// Finds a check model of a gadget.
    fn find_check_model(&self, gid: u64) -> (cid: Option<u64>)
        requires
            self.wf(),
        ensures
            match cid {
                Some(c) => self.is_bound(gid, c),
                None => forall|c: u64| !#[trigger] self.is_bound(gid, c),
            },
    {
        proof {
            self.check_models.lemma_id_seq();
        }
        let mut row: usize = 0;
        while row < self.check_models.len()
            invariant
                self.wf(),
                row <= self.check_models.id_seq().len(),
                self.check_models.id_seq().len() == self.check_models@.dom().len(),
                forall|k: int| 0 <= k < row ==> !self.is_bound(gid, #[trigger] self.check_models.id_seq()[k]),
            decreases self.check_models.id_seq().len() - row,
        {
            let cid: u64 = self.check_models.id_at(row);
            let at: usize = *self.check_models.get(cid).unwrap();
            let found = match &self.instructions[at].create {
                Some(Create::CheckModel(check_model)) => check_model.gid == gid,
                _ => false,
            };
            if found {
                return Some(cid);
            }
            row += 1;
        }
        proof {
            self.check_models.lemma_id_seq();
            assert forall|c: u64| !#[trigger] self.is_bound(gid, c) by {
                if self.is_bound(gid, c) {
                    assert(self.check_models.id_seq().contains(c));
                    let k = self.check_models.id_seq().index_of(c);
                    assert(!self.is_bound(gid, self.check_models.id_seq()[k]));
                }
            }
        }
        None
    }

    /// The remote check models of an error model of gadget `owner`. `None` if a
    /// reference is invalid.
    pub fn expand_remote_check_models(&self, slots: &Vec<Option<Slot>>, owner: u64) -> (expanded: Option<Vec<Option<u64>>>)
        requires
            self.wf(),
        ensures
            match expanded {
                Some(list) => {
                    &&& list@.len() == slots@.len()
                    &&& forall|ri: int| 0 <= ri < slots@.len() ==> !(#[trigger] self.mock_reach_of(slots@, owner, ri) is Fault)
                    &&& forall|ri: int|
                        0 <= ri < slots@.len() ==> self.check_model_at(
                            self.mock_reach_of(slots@, owner, ri),
                            #[trigger] list@[ri],
                        )
                },
                None => exists|ri: int| 0 <= ri < slots@.len() && #[trigger] self.mock_reach_of(slots@, owner, ri) is Fault,
            },
    {
        let mut list: Vec<Option<u64>> = Vec::new();
        let mut ri: usize = 0;
        while ri < slots.len()
            invariant
                self.wf(),
                ri <= slots@.len(),
                list@.len() == ri,
                forall|k: int| 0 <= k < ri ==> !(#[trigger] self.mock_reach_of(slots@, owner, k) is Fault),
                forall|k: int|
                    0 <= k < ri ==> self.check_model_at(self.mock_reach_of(slots@, owner, k), #[trigger] list@[k]),
            decreases slots@.len() - ri,
        {
            let found = self.expand_remote_check_model(slots, owner, ri);
            assert(found == self.mock_reach_of(slots@, owner, ri as int));
            match found {
                Reach::Fault => {
                    return None;
                },
                Reach::To(Target::Gadget(gid)) => {
                    let cid = self.find_check_model(gid);
                    list.push(cid);
                },
                Reach::To(Target::CheckModel(cid)) => {
                    list.push(Some(cid));
                },
                _ => {
                    list.push(None);
                },
            }
            ri += 1;
        }
        Some(list)
    }
}

// ---------------------------------------------------------------------------
// Effective types
// ---------------------------------------------------------------------------

/// A check model type with the overrides of an instance applied.
#[derive(Debug)]
pub struct EffectiveCheckModelType {
    pub ctype: u64,
    pub gtype: u64,
    pub checks: Vec<Check>,
    /// the gadget of each slot, up to the last one that is used; 0 where it is not
    pub remote_gadgets: Vec<u64>,
}

/// An error model type with the overrides of an instance applied.
#[derive(Debug)]
pub struct EffectiveErrorModelType {
    pub etype: u64,
    pub ctype: u64,
    pub errors: Vec<Error>,
    /// the check model of each slot, up to the last one that is used; 0 where it is not
    pub remote_check_models: Vec<u64>,
}

/// What all instances come to.
pub struct EffectiveTypes {
    pub check_model_types: Registry<EffectiveCheckModelType>,
    pub error_model_types: Registry<EffectiveErrorModelType>,
}

/// The slots that the first `n` measurements use.
pub open spec fn used_by_measurements(list: Seq<RemoteMeasurement>, n: int) -> Seq<u64>
    decreases n,
{
    if n <= 0 {
        Seq::empty()
    } else {
        match list[n - 1].remote_gadget {
            Some(slot) => used_by_measurements(list, n - 1).push(slot),
            None => used_by_measurements(list, n - 1),
        }
    }
}

/// The slots that the first `n` checks use.
pub open spec fn used_by_checks(checks: Seq<CheckSpec>, n: int) -> Seq<u64>
    decreases n,
{
    if n <= 0 {
        Seq::empty()
    } else {
        used_by_checks(checks, n - 1) + used_by_measurements(checks[n - 1].measurements, checks[n - 1].measurements.len() as int)
    }
}

/// The slots that the first `n` checks of a mechanism use.
pub open spec fn used_by_references(list: Seq<RemoteCheck>, n: int) -> Seq<u64>
    decreases n,
{
    if n <= 0 {
        Seq::empty()
    } else {
        match list[n - 1].remote_check_model {
            Some(slot) => used_by_references(list, n - 1).push(slot),
            None => used_by_references(list, n - 1),
        }
    }
}

/// The slots that the first `n` mechanisms use.
pub open spec fn used_by_errors(errors: Seq<ErrorSpec>, n: int) -> Seq<u64>
    decreases n,
{
    if n <= 0 {
        Seq::empty()
    } else {
        used_by_errors(errors, n - 1) + used_by_references(errors[n - 1].checks, errors[n - 1].checks.len() as int)
    }
}

/// `n` is how many of `len` slots there are up to the last one that is used.
pub open spec fn is_cut(used: Seq<u64>, len: int, n: int) -> bool {
    &&& 0 <= n <= len
    &&& forall|i: int|
        0 <= i < used.len() ==> (if #[trigger] used[i] < len {
            used[i] < n
        } else {
            n == len
        })
    &&& n > 0 ==> exists|i: int| 0 <= i < used.len() && #[trigger] used[i] >= n - 1
}

/// What the used slots stand for.
pub open spec fn are_targets(used: Seq<u64>, expanded: Seq<Option<u64>>, list: Seq<u64>) -> bool {
    &&& is_cut(used, expanded.len() as int, list.len() as int)
    &&& forall|i: int|
        0 <= i < list.len() ==> #[trigger] list[i] == (if used.contains(i as u64) {
            expanded[i]->0
        } else {
            0
        })
}

/// Every used slot stands for something.
pub open spec fn targets_known(used: Seq<u64>, expanded: Seq<Option<u64>>) -> bool {
    forall|i: int| 0 <= i < expanded.len() && used.contains(i as u64) ==> #[trigger] expanded[i] is Some
}

/// How many slots there are up to the last one that is used.
fn cut(used: &Vec<u64>, len: usize) -> (n: usize)
    ensures
        is_cut(used@, len as int, n as int),
{
    let mut n: usize = 0;
    let mut i: usize = 0;
    while i < used.len()
        invariant
            i <= used@.len(),
            n <= len,
            forall|k: int|
                0 <= k < i ==> (if #[trigger] used@[k] < len {
                    used@[k] < n
                } else {
                    n == len
                }),
            n > 0 ==> exists|k: int| 0 <= k < i && #[trigger] used@[k] >= n - 1,
        decreases used@.len() - i,
    {
        if used[i] >= len as u64 {
            n = len;
        } else if used[i] >= n as u64 {
            n = used[i] as usize + 1;
        }
        assert(n > 0 ==> exists|k: int| 0 <= k < i + 1 && #[trigger] used@[k] >= n - 1) by {
            if n > 0 && used@[i as int] < n - 1 {
            } else {
                assert(n > 0 ==> used@[i as int] >= n - 1);
            }
        }
        i += 1;
    }
    n
}

/// Whether a slot is used.
fn is_used(used: &Vec<u64>, slot: u64) -> (yes: bool)
    ensures
        yes == used@.contains(slot),
{
    let mut i: usize = 0;
    while i < used.len()
        invariant
            i <= used@.len(),
            forall|k: int| 0 <= k < i ==> used@[k] != slot,
        decreases used@.len() - i,
    {
        if used[i] == slot {
            assert(used@[i as int] == slot);
            return true;
        }
        i += 1;
    }
    false
}

/// What the used slots stand for. `None` if one of them stands for nothing.
fn targets_of(used: &Vec<u64>, expanded: &Vec<Option<u64>>) -> (list: Option<Vec<u64>>)
    ensures
        list is Some == targets_known(used@, expanded@),
        list matches Some(l) ==> are_targets(used@, expanded@, l@),
{
    let n: usize = cut(used, expanded.len());
    let mut list: Vec<u64> = Vec::new();
    let mut i: usize = 0;
    while i < n
        invariant
            i <= n <= expanded@.len(),
            list@.len() == i,
            forall|k: int| 0 <= k < i && used@.contains(k as u64) ==> #[trigger] expanded@[k] is Some,
            forall|k: int|
                0 <= k < i ==> #[trigger] list@[k] == (if used@.contains(k as u64) {
                    expanded@[k]->0
                } else {
                    0
                }),
        decreases n - i,
    {
        if is_used(used, i as u64) {
            match expanded[i] {
                Some(id) => {
                    list.push(id);
                },
                None => {
                    assert(expanded@[i as int] is None);
                    return None;
                },
            }
        } else {
            list.push(0);
        }
        i += 1;
    }
    proof {
        assert(expanded.len() == expanded@.len());
        assert forall|k: int| 0 <= k < expanded@.len() && used@.contains(k as u64) implies #[trigger] expanded@[k] is Some by {
            let j = used@.index_of(k as u64);
            assert(used@[j] < expanded@.len());
        }
    }
    Some(list)
}

/// The slots that checks use.
fn slots_of_checks(checks: &Vec<Check>) -> (used: Vec<u64>)
    ensures
        used@ == used_by_checks(checks_view(checks@), checks@.len() as int),
{
    let ghost views = checks_view(checks@);
    let mut used: Vec<u64> = Vec::new();
    let mut f: usize = 0;
    while f < checks.len()
        invariant
            f <= checks@.len(),
            views == checks_view(checks@),
            used@ == used_by_checks(views, f as int),
        decreases checks@.len() - f,
    {
        let list = &checks[f].measurements;
        let ghost start = used@;
        assert(views[f as int] == checks@[f as int]@);
        let mut k: usize = 0;
        while k < list.len()
            invariant
                k <= list@.len(),
                used@ =~= start + used_by_measurements(list@, k as int),
            decreases list@.len() - k,
        {
            if let Some(slot) = list[k].remote_gadget {
                used.push(slot);
            }
            k += 1;
        }
        f += 1;
    }
    used
}

/// The slots that mechanisms use.
fn slots_of_errors(errors: &Vec<Error>) -> (used: Vec<u64>)
    ensures
        used@ == used_by_errors(errors_view(errors@), errors@.len() as int),
{
    let ghost views = errors_view(errors@);
    let mut used: Vec<u64> = Vec::new();
    let mut f: usize = 0;
    while f < errors.len()
        invariant
            f <= errors@.len(),
            views == errors_view(errors@),
            used@ == used_by_errors(views, f as int),
        decreases errors@.len() - f,
    {
        let list = &errors[f].checks;
        let ghost start = used@;
        assert(views[f as int] == errors@[f as int]@);
        let mut k: usize = 0;
        while k < list.len()
            invariant
                k <= list@.len(),
                used@ =~= start + used_by_references(list@, k as int),
            decreases list@.len() - k,
        {
            if let Some(slot) = list[k].remote_check_model {
                used.push(slot);
            }
            k += 1;
        }
        f += 1;
    }
    used
}

/// The overrides of a check model can be applied.
pub open spec fn gadget_reroutes_apply(modifier: Option<CheckModelModifier>) -> bool {
    modifier matches Some(m) ==> forall|i: int|
        0 <= i < m.reroute_remote_gadgets@.len() ==> (#[trigger] m.reroute_remote_gadgets@[i]).remote_gadget_index < usize::MAX
}

/// The overrides of an error model can be applied.
pub open spec fn check_model_reroutes_apply(modifier: Option<ErrorModelModifier>) -> bool {
    modifier matches Some(m) ==> forall|i: int|
        0 <= i < m.reroute_remote_check_models@.len() ==> (#[trigger] m.reroute_remote_check_models@[i]).remote_check_model_index
            < usize::MAX
}

/// Whether the overrides of a check model can be applied.
fn gadget_reroutes_ok(modifier: &Option<CheckModelModifier>) -> (yes: bool)
    ensures
        yes == gadget_reroutes_apply(*modifier),
{
    let Some(m) = modifier else {
        return true;
    };
    let mut i: usize = 0;
    while i < m.reroute_remote_gadgets.len()
        invariant
            i <= m.reroute_remote_gadgets@.len(),
            *modifier == Some(*m),
            forall|k: int| 0 <= k < i ==> (#[trigger] m.reroute_remote_gadgets@[k]).remote_gadget_index < usize::MAX,
        decreases m.reroute_remote_gadgets@.len() - i,
    {
        if m.reroute_remote_gadgets[i].remote_gadget_index >= usize::MAX as u64 {
            assert(m.reroute_remote_gadgets@[i as int].remote_gadget_index >= usize::MAX);
            return false;
        }
        i += 1;
    }
    true
}

/// Whether the overrides of an error model can be applied.
fn check_model_reroutes_ok(modifier: &Option<ErrorModelModifier>) -> (yes: bool)
    ensures
        yes == check_model_reroutes_apply(*modifier),
{
    let Some(m) = modifier else {
        return true;
    };
    let mut i: usize = 0;
    while i < m.reroute_remote_check_models.len()
        invariant
            i <= m.reroute_remote_check_models@.len(),
            *modifier == Some(*m),
            forall|k: int| 0 <= k < i ==> (#[trigger] m.reroute_remote_check_models@[k]).remote_check_model_index < usize::MAX,
        decreases m.reroute_remote_check_models@.len() - i,
    {
        if m.reroute_remote_check_models[i].remote_check_model_index >= usize::MAX as u64 {
            assert(m.reroute_remote_check_models@[i as int].remote_check_model_index >= usize::MAX);
            return false;
        }
        i += 1;
    }
    true
}

impl MockCoordinatorState {
    /// The slots of a check model, overrides applied.
    pub open spec fn gadget_slots_of(&self, cid: u64) -> Seq<Option<Slot>> {
        let model = self.check_model(cid);
        gadget_slots(modified_gadgets_spec(self.check_model_type(model.ctype).remote_gadgets@, model.modifier))
    }

    /// The gadgets that the slots of a check model stand for.
    pub open spec fn remote_gadgets_of(&self, cid: u64) -> Seq<Option<u64>> {
        let slots = self.gadget_slots_of(cid);
        Seq::new(slots.len(), |ri: int| Self::gadget_at(self.mock_reach_of(slots, self.check_model(cid).gid, ri)))
    }

    /// The slots that the checks of a check model use.
    pub open spec fn gadget_slots_used(&self, cid: u64) -> Seq<u64> {
        let checks = checks_view(self.check_model_type(self.check_model(cid).ctype).checks@);
        used_by_checks(checks, checks.len() as int)
    }

    /// A check model comes to something: its type is known, its references are valid,
    /// and every slot that its checks use stands for a gadget.
    pub open spec fn check_model_effective(&self, cid: u64) -> bool {
        let model = self.check_model(cid);
        let slots = self.gadget_slots_of(cid);
        &&& self.check_model_types@.contains_key(model.ctype)
        &&& gadget_reroutes_apply(model.modifier)
        &&& forall|ri: int| 0 <= ri < slots.len() ==> !(#[trigger] self.mock_reach_of(slots, model.gid, ri) is Fault)
        &&& targets_known(self.gadget_slots_used(cid), self.remote_gadgets_of(cid))
    }

    /// What a check model comes to.
    pub open spec fn is_effective_check_model(&self, cid: u64, effective: EffectiveCheckModelType) -> bool {
        let model = self.check_model(cid);
        let base = self.check_model_type(model.ctype);
        &&& effective.ctype == model.ctype
        &&& effective.gtype == base.gtype
        &&& checks_view(effective.checks@) == checks_view(base.checks@)
        &&& are_targets(self.gadget_slots_used(cid), self.remote_gadgets_of(cid), effective.remote_gadgets@)
    }

    /// Applies the overrides of a check model to its type.
    pub fn effective_check_model(&self, cid: u64) -> (effective: Option<EffectiveCheckModelType>)
        requires
            self.wf(),
            self.check_models@.contains_key(cid),
        ensures
            effective is Some == self.check_model_effective(cid),
            effective matches Some(e) ==> self.is_effective_check_model(cid, e),
    {
        let at: usize = *self.check_models.get(cid).unwrap();
        let Some(Create::CheckModel(model)) = &self.instructions[at].create else {
            return None;
        };
        let Some(position) = self.check_model_types.get(model.ctype) else {
            return None;
        };
        let base = &self.libraries[position.library].check_model_types[position.row];
        if !gadget_reroutes_ok(&model.modifier) {
            return None;
        }
        let modified = modified_remote_gadgets(&base.remote_gadgets, &model.modifier);
        let slots = gadget_slots_of(&modified);
        assert(slots@ == self.gadget_slots_of(cid));
        let Some(expanded) = self.expand_remote_gadgets(&slots, model.gid) else {
            return None;
        };
        proof {
            assert(expanded@ =~= self.remote_gadgets_of(cid));
            assert forall|ri: int| 0 <= ri < slots@.len() implies !(#[trigger] self.mock_reach_of(slots@, model.gid, ri) is Fault) by {
                assert(expanded@[ri] == Self::gadget_at(self.mock_reach_of(slots@, model.gid, ri)));
            }
        }
        let used = slots_of_checks(&base.checks);
        assert(checks_view(base.checks@).len() == base.checks@.len());
        let Some(remote_gadgets) = targets_of(&used, &expanded) else {
            return None;
        };
        Some(
            EffectiveCheckModelType {
                ctype: model.ctype,
                gtype: base.gtype,
                checks: copy_checks(&base.checks),
                remote_gadgets,
            },
        )
    }

    /// The slots of an error model, overrides applied.
    pub open spec fn check_model_slots_of(&self, eid: u64) -> Seq<Option<Slot>> {
        let model = self.error_model(eid);
        check_model_slots(modified_check_models_spec(self.error_model_type(model.etype).remote_check_models@, model.modifier))
    }

    /// The mechanisms of an error model, with the probabilities of the instance.
    pub open spec fn errors_of(&self, eid: u64) -> Seq<ErrorSpec> {
        let model = self.error_model(eid);
        effective_errors_spec(errors_view(self.error_model_type(model.etype).errors@), model)
    }

    /// The slots that the mechanisms of an error model use.
    pub open spec fn check_model_slots_used(&self, eid: u64) -> Seq<u64> {
        used_by_errors(self.errors_of(eid), self.errors_of(eid).len() as int)
    }

    /// The gadget that an error model belongs to.
    pub open spec fn error_model_owner(&self, eid: u64) -> u64 {
        self.check_model(self.error_model(eid).cid).gid
    }

    /// The check models that the slots of an error model stand for.
    pub open spec fn are_remote_check_models(&self, eid: u64, expanded: Seq<Option<u64>>) -> bool {
        let slots = self.check_model_slots_of(eid);
        &&& expanded.len() == slots.len()
        &&& forall|ri: int|
            0 <= ri < slots.len() ==> self.check_model_at(
                self.mock_reach_of(slots, self.error_model_owner(eid), ri),
                #[trigger] expanded[ri],
            )
    }

    /// An error model is sound: its type and its check model are known, its
    /// probabilities belong to mechanisms, and its references are valid.
    pub open spec fn error_model_sound(&self, eid: u64) -> bool {
        let model = self.error_model(eid);
        let slots = self.check_model_slots_of(eid);
        &&& self.error_model_types@.contains_key(model.etype)
        &&& check_model_reroutes_apply(model.modifier)
        &&& modifier_fits(self.error_model_type(model.etype).errors@.len(), model)
        &&& self.check_models@.contains_key(model.cid)
        &&& forall|ri: int|
            0 <= ri < slots.len() ==> !(#[trigger] self.mock_reach_of(slots, self.error_model_owner(eid), ri) is Fault)
    }

    /// What an error model comes to. A gadget with several check models may stand for
    /// any of them.
    pub open spec fn is_effective_error_model(&self, eid: u64, effective: EffectiveErrorModelType) -> bool {
        let model = self.error_model(eid);
        &&& effective.etype == model.etype
        &&& effective.ctype == self.error_model_type(model.etype).ctype
        &&& errors_view(effective.errors@) == self.errors_of(eid)
        &&& exists|expanded: Seq<Option<u64>>|
            {
                &&& #[trigger] self.are_remote_check_models(eid, expanded)
                &&& targets_known(self.check_model_slots_used(eid), expanded)
                &&& are_targets(self.check_model_slots_used(eid), expanded, effective.remote_check_models@)
            }
    }

    /// Some slot that the mechanisms of an error model use stands for no check model.
    pub open spec fn lacks_check_model(&self, eid: u64) -> bool {
        exists|expanded: Seq<Option<u64>>| #[trigger]
            self.are_remote_check_models(eid, expanded) && !targets_known(self.check_model_slots_used(eid), expanded)
    }

    /// Applies the overrides of an error model to its type.
    pub fn effective_error_model(&self, eid: u64) -> (effective: Option<EffectiveErrorModelType>)
        requires
            self.wf(),
            self.error_models@.contains_key(eid),
        ensures
            match effective {
                Some(e) => self.error_model_sound(eid) && self.is_effective_error_model(eid, e),
                None => !self.error_model_sound(eid) || self.lacks_check_model(eid),
            },
    {
        let at: usize = *self.error_models.get(eid).unwrap();
        let Some(Create::ErrorModel(model)) = &self.instructions[at].create else {
            return None;
        };
        let Some(position) = self.error_model_types.get(model.etype) else {
            return None;
        };
        let base = &self.libraries[position.library].error_model_types[position.row];
        if !check_model_reroutes_ok(&model.modifier) || !check_modifier_fits(base.errors.len(), model) {
            return None;
        }
        let Some(owner) = self.check_models.get(model.cid) else {
            return None;
        };
        let gid: u64 = match &self.instructions[*owner].create {
            Some(Create::CheckModel(check_model)) => check_model.gid,
            _ => {
                return None;
            },
        };
        let modified = modified_remote_check_models(&base.remote_check_models, &model.modifier);
        let slots = check_model_slots_of(&modified);
        let errors = effective_errors(base, model);
        assert(slots@ == self.check_model_slots_of(eid));
        let Some(expanded) = self.expand_remote_check_models(&slots, gid) else {
            return None;
        };
        proof {
            assert forall|ri: int| 0 <= ri < slots@.len() implies !(#[trigger] self.mock_reach_of(slots@, gid, ri) is Fault) by {
                assert(self.check_model_at(self.mock_reach_of(slots@, gid, ri), expanded@[ri]));
            }
            assert(self.are_remote_check_models(eid, expanded@));
            assert(errors_view(errors@).len() == errors@.len());
        }
        let used = slots_of_errors(&errors);
        let Some(remote_check_models) = targets_of(&used, &expanded) else {
            return None;
        };
        Some(EffectiveErrorModelType { etype: model.etype, ctype: base.ctype, errors, remote_check_models })
    }

    /// What all instances come to. `None` if one of them comes to nothing.
    pub fn get_effective_types(&self) -> (effective: Option<EffectiveTypes>)
        requires
            self.wf(),
        ensures
            match effective {
                Some(e) => {
                    &&& e.check_model_types.wf()
                    &&& e.error_model_types.wf()
                    &&& e.check_model_types@.dom() == self.check_models@.dom()
                    &&& e.error_model_types@.dom() == self.error_models@.dom()
                    &&& forall|cid: u64| #[trigger]
                        self.check_models@.contains_key(cid) ==> self.check_model_effective(cid) && self.is_effective_check_model(
                            cid,
                            e.check_model_types@[cid],
                        )
                    &&& forall|eid: u64| #[trigger]
                        self.error_models@.contains_key(eid) ==> self.error_model_sound(eid) && self.is_effective_error_model(
                            eid,
                            e.error_model_types@[eid],
                        )
                },
                None => {
                    ||| exists|cid: u64| #[trigger] self.check_models@.contains_key(cid) && !self.check_model_effective(cid)
                    ||| exists|eid: u64| #[trigger]
                        self.error_models@.contains_key(eid) && (!self.error_model_sound(eid) || self.lacks_check_model(eid))
                },
            },
    {
        let mut check_model_types: Registry<EffectiveCheckModelType> = Registry::new();
        let mut error_model_types: Registry<EffectiveErrorModelType> = Registry::new();
        let ghost cids = self.check_models.id_seq();
        let ghost eids = self.error_models.id_seq();
        proof {
            self.check_models.lemma_id_seq();
            self.error_models.lemma_id_seq();
            assert(check_model_types@.dom() =~= cids.take(0).to_set());
            assert(error_model_types@.dom() =~= eids.take(0).to_set());
        }
        let mut row: usize = 0;
        while row < self.check_models.len()
            invariant
                self.wf(),
                cids == self.check_models.id_seq(),
                row <= cids.len(),
                cids.len() == self.check_models@.dom().len(),
                check_model_types.wf(),
                check_model_types@.dom() == cids.take(row as int).to_set(),
                forall|cid: u64| #[trigger]
                    check_model_types@.contains_key(cid) ==> self.check_model_effective(cid) && self.is_effective_check_model(
                        cid,
                        check_model_types@[cid],
                    ),
            decreases cids.len() - row,
        {
            let cid: u64 = self.check_models.id_at(row);
            let Some(effective) = self.effective_check_model(cid) else {
                return None;
            };
            check_model_types.insert(cid, effective);
            proof {
                assert(cids.take(row as int + 1) =~= cids.take(row as int).push(cid));
                cids.take(row as int).lemma_push_to_set_commute(cid);
                assert(check_model_types@.dom() =~= cids.take(row as int + 1).to_set());
            }
            row += 1;
        }
        row = 0;
        while row < self.error_models.len()
            invariant
                self.wf(),
                eids == self.error_models.id_seq(),
                row <= eids.len(),
                eids.len() == self.error_models@.dom().len(),
                error_model_types.wf(),
                error_model_types@.dom() == eids.take(row as int).to_set(),
                forall|eid: u64| #[trigger]
                    error_model_types@.contains_key(eid) ==> self.error_model_sound(eid) && self.is_effective_error_model(
                        eid,
                        error_model_types@[eid],
                    ),
            decreases eids.len() - row,
        {
            let eid: u64 = self.error_models.id_at(row);
            let Some(effective) = self.effective_error_model(eid) else {
                return None;
            };
            error_model_types.insert(eid, effective);
            proof {
                assert(eids.take(row as int + 1) =~= eids.take(row as int).push(eid));
                eids.take(row as int).lemma_push_to_set_commute(eid);
                assert(error_model_types@.dom() =~= eids.take(row as int + 1).to_set());
            }
            row += 1;
        }
        proof {
            self.check_models.lemma_id_seq();
            self.error_models.lemma_id_seq();
            assert(cids.take(cids.len() as int) =~= cids);
            assert(eids.take(eids.len() as int) =~= eids);
            assert forall|cid: u64| #[trigger] self.check_models@.contains_key(cid) implies self.check_model_effective(cid)
                && self.is_effective_check_model(cid, check_model_types@[cid]) by {
                assert(cids.contains(cid));
                assert(check_model_types@.contains_key(cid));
            }
            assert forall|eid: u64| #[trigger] self.error_models@.contains_key(eid) implies self.error_model_sound(eid)
                && self.is_effective_error_model(eid, error_model_types@[eid]) by {
                assert(eids.contains(eid));
                assert(error_model_types@.contains_key(eid));
            }
        }
        Some(EffectiveTypes { check_model_types, error_model_types })
    }
}

/// A slot list is cut in one way only.
pub proof fn law_cut_is_unique(used: Seq<u64>, len: int, a: int, b: int)
    requires
        is_cut(used, len, a),
        is_cut(used, len, b),
    ensures
        a == b,
{
    if a < b {
        let i = choose|i: int| 0 <= i < used.len() && #[trigger] used[i] >= b - 1;
        assert(used[i] >= a);
    }
    if b < a {
        let i = choose|i: int| 0 <= i < used.len() && #[trigger] used[i] >= a - 1;
        assert(used[i] >= b);
    }
}

proof fn lemma_used_by_measurements_members(list: Seq<RemoteMeasurement>, n: int, slot: u64)
    requires
        0 <= n <= list.len(),
    ensures
        used_by_measurements(list, n).contains(slot) <==> exists|j: int| 0 <= j < n && (#[trigger] list[j]).remote_gadget == Some(slot),
    decreases n,
{
    if n > 0 {
        lemma_used_by_measurements_members(list, n - 1, slot);
        let (before, after) = (used_by_measurements(list, n - 1), used_by_measurements(list, n));
        if list[n - 1].remote_gadget is Some {
            assert(after[before.len() as int] == list[n - 1].remote_gadget->0);
            if before.contains(slot) {
                assert(after[before.index_of(slot)] == slot);
            }
            if after.contains(slot) {
                let k = after.index_of(slot);
                if k < before.len() {
                    assert(before[k] == slot);
                }
            }
        }
    }
}

/// The slots that checks use are those that one of them names.
pub proof fn law_used_by_checks_are_the_named_slots(list: Seq<CheckSpec>, n: int, slot: u64)
    requires
        0 <= n <= list.len(),
    ensures
        used_by_checks(list, n).contains(slot) <==> exists|i: int, j: int|
            0 <= i < n && 0 <= j < list[i].measurements.len() && (#[trigger] list[i].measurements[j]).remote_gadget == Some(slot),
    decreases n,
{
    if n > 0 {
        law_used_by_checks_are_the_named_slots(list, n - 1, slot);
        let row = list[n - 1].measurements;
        lemma_used_by_measurements_members(row, row.len() as int, slot);
        let before = used_by_checks(list, n - 1);
        let more = used_by_measurements(row, row.len() as int);
        let after = used_by_checks(list, n);
        assert(after == before + more);
        if before.contains(slot) {
            assert(after[before.index_of(slot)] == slot);
        }
        if more.contains(slot) {
            assert(after[before.len() + more.index_of(slot)] == slot);
        }
        if after.contains(slot) {
            let k = after.index_of(slot);
            if k < before.len() {
                assert(before[k] == slot);
            } else {
                assert(more[k - before.len()] == slot);
                let j = choose|j: int| 0 <= j < row.len() && (#[trigger] row[j]).remote_gadget == Some(slot);
                assert(list[n - 1].measurements[j].remote_gadget == Some(slot));
            }
        }
        if exists|i: int, j: int|
            0 <= i < n && 0 <= j < list[i].measurements.len() && (#[trigger] list[i].measurements[j]).remote_gadget == Some(slot) {
            let (i, j) = choose|i: int, j: int|
                0 <= i < n && 0 <= j < list[i].measurements.len() && (#[trigger] list[i].measurements[j]).remote_gadget == Some(slot);
            if i == n - 1 {
                assert(row[j].remote_gadget == Some(slot));
                assert(more.contains(slot));
            } else {
                assert(before.contains(slot));
            }
        }
    }
}

proof fn lemma_used_by_references_members(list: Seq<RemoteCheck>, n: int, slot: u64)
    requires
        0 <= n <= list.len(),
    ensures
        used_by_references(list, n).contains(slot) <==> exists|j: int| 0 <= j < n && (#[trigger] list[j]).remote_check_model == Some(slot),
    decreases n,
{
    if n > 0 {
        lemma_used_by_references_members(list, n - 1, slot);
        let (before, after) = (used_by_references(list, n - 1), used_by_references(list, n));
        if list[n - 1].remote_check_model is Some {
            assert(after[before.len() as int] == list[n - 1].remote_check_model->0);
            if before.contains(slot) {
                assert(after[before.index_of(slot)] == slot);
            }
            if after.contains(slot) {
                let k = after.index_of(slot);
                if k < before.len() {
                    assert(before[k] == slot);
                }
            }
        }
    }
}

/// The slots that mechanisms use are those that one of them names.
pub proof fn law_used_by_errors_are_the_named_slots(list: Seq<ErrorSpec>, n: int, slot: u64)
    requires
        0 <= n <= list.len(),
    ensures
        used_by_errors(list, n).contains(slot) <==> exists|i: int, j: int|
            0 <= i < n && 0 <= j < list[i].checks.len() && (#[trigger] list[i].checks[j]).remote_check_model == Some(slot),
    decreases n,
{
    if n > 0 {
        law_used_by_errors_are_the_named_slots(list, n - 1, slot);
        let row = list[n - 1].checks;
        lemma_used_by_references_members(row, row.len() as int, slot);
        let before = used_by_errors(list, n - 1);
        let more = used_by_references(row, row.len() as int);
        let after = used_by_errors(list, n);
        assert(after == before + more);
        if before.contains(slot) {
            assert(after[before.index_of(slot)] == slot);
        }
        if more.contains(slot) {
            assert(after[before.len() + more.index_of(slot)] == slot);
        }
        if after.contains(slot) {
            let k = after.index_of(slot);
            if k < before.len() {
                assert(before[k] == slot);
            } else {
                assert(more[k - before.len()] == slot);
                let j = choose|j: int| 0 <= j < row.len() && (#[trigger] row[j]).remote_check_model == Some(slot);
                assert(list[n - 1].checks[j].remote_check_model == Some(slot));
            }
        }
        if exists|i: int, j: int|
            0 <= i < n && 0 <= j < list[i].checks.len() && (#[trigger] list[i].checks[j]).remote_check_model == Some(slot) {
            let (i, j) = choose|i: int, j: int|
                0 <= i < n && 0 <= j < list[i].checks.len() && (#[trigger] list[i].checks[j]).remote_check_model == Some(slot);
            if i == n - 1 {
                assert(row[j].remote_check_model == Some(slot));
                assert(more.contains(slot));
            } else {
                assert(before.contains(slot));
            }
        }
    }
}

/// A loaded type is found where it stands in its library; positions of other numbers stay.
pub proof fn law_loaded_type_is_found_in_its_library<T: Typed>(
    before: Map<u64, Position>,
    types: Seq<T>,
    library: usize,
    n: int,
    k: int,
    id: u64,
)
    requires
        0 <= k < n <= types.len(),
        forall|j: int| k < j < n ==> (#[trigger] types[j]).key() != types[k].key(),
        forall|j: int| 0 <= j < n ==> (#[trigger] types[j]).key() != id,
    ensures
        positions_after(before, types, library, n).contains_key(types[k].key()),
        positions_after(before, types, library, n)[types[k].key()] == (Position { library, row: k as usize }),
        positions_after(before, types, library, n).contains_key(id) == before.contains_key(id),
        before.contains_key(id) ==> positions_after(before, types, library, n)[id] == before[id],
    decreases n,
{
    reveal_with_fuel(positions_after, 2);
    assert(types[n - 1].key() != id);
    if k < n - 1 {
        law_loaded_type_is_found_in_its_library(before, types, library, n - 1, k, id);
        assert(types[n - 1].key() != types[k].key());
    } else {
        lemma_other_positions(before, types, library, n, id);
    }
}

proof fn lemma_other_positions<T: Typed>(before: Map<u64, Position>, types: Seq<T>, library: usize, n: int, id: u64)
    requires
        0 <= n <= types.len(),
        forall|j: int| 0 <= j < n ==> (#[trigger] types[j]).key() != id,
    ensures
        positions_after(before, types, library, n).contains_key(id) == before.contains_key(id),
        before.contains_key(id) ==> positions_after(before, types, library, n)[id] == before[id],
    decreases n,
{
    if n > 0 {
        lemma_other_positions(before, types, library, n - 1, id);
        assert(types[n - 1].key() != id);
    }
}

/// An output that a new gadget is connected to leads to this gadget; other outputs lead
/// where they led.
pub proof fn law_connected_output_leads_to_the_gadget(
    before: Map<(u64, u64), u64>,
    connectors: Seq<Connector>,
    gid: u64,
    n: int,
    port: Connector,
)
    requires
        0 <= n <= connectors.len(),
    ensures
        (exists|k: int| 0 <= k < n && #[trigger] connectors[k] == port) ==> outputs_after(
            before,
            connectors,
            gid,
            n,
        ).contains_key((port.gid, port.port)) && outputs_after(before, connectors, gid, n)[(port.gid, port.port)] == gid,
        (forall|k: int| 0 <= k < n ==> #[trigger] connectors[k] != port) ==> outputs_after(
            before,
            connectors,
            gid,
            n,
        ).contains_key((port.gid, port.port)) == before.contains_key((port.gid, port.port)) && (before.contains_key(
            (port.gid, port.port),
        ) ==> outputs_after(before, connectors, gid, n)[(port.gid, port.port)] == before[(port.gid, port.port)]),
    decreases n,
{
    if n > 0 {
        law_connected_output_leads_to_the_gadget(before, connectors, gid, n - 1, port);
        if forall|k: int| 0 <= k < n ==> #[trigger] connectors[k] != port {
            assert(connectors[n - 1] != port);
            assert forall|k: int| 0 <= k < n - 1 implies #[trigger] connectors[k] != port by {
            }
        } else {
            let k = choose|k: int| 0 <= k < n && #[trigger] connectors[k] == port;
        }
    }
}

/// In an effective check model a slot that a check uses stands for the gadget that the slot
/// leads to.
pub proof fn law_effective_check_model_names_its_gadgets(
    state: MockCoordinatorState,
    cid: u64,
    effective: EffectiveCheckModelType,
    c: int,
    m: int,
    slot: u64,
)
    requires
        state.check_model_effective(cid),
        state.is_effective_check_model(cid, effective),
        ({
            let checks = state.check_model_type(state.check_model(cid).ctype).checks@;
            &&& 0 <= c < checks.len()
            &&& 0 <= m < checks[c].measurements@.len()
            &&& checks[c].measurements@[m].remote_gadget == Some(slot)
        }),
        slot < state.gadget_slots_of(cid).len(),
    ensures
        slot < effective.remote_gadgets@.len(),
        state.mock_reach_of(state.gadget_slots_of(cid), state.check_model(cid).gid, slot as int) == Reach::To(
            Target::Gadget(effective.remote_gadgets@[slot as int]),
        ),
{
    let checks = checks_view(state.check_model_type(state.check_model(cid).ctype).checks@);
    assert(checks[c].measurements[m].remote_gadget == Some(slot));
    law_used_by_checks_are_the_named_slots(checks, checks.len() as int, slot);
    let used = state.gadget_slots_used(cid);
    let expanded = state.remote_gadgets_of(cid);
    assert(used.contains(slot));
    let k = used.index_of(slot);
    assert(used[k] < expanded.len());
    assert(expanded[slot as int] is Some);
    assert(effective.remote_gadgets@[slot as int] == expanded[slot as int]->0);
}

/// The port of the owning gadget is followed first: an output to the gadget connected there,
/// an input to the gadget that it is connected to.
pub proof fn law_recorded_reference_follows_the_owner(
    state: MockCoordinatorState,
    slots: Seq<Option<Slot>>,
    owner: u64,
    ri: int,
    p: u64,
)
    requires
        0 <= ri < slots.len(),
    ensures
        slots[ri] == Some(Slot::Via { previous: None, port: Some(Port::Output(p)) }) && state.outputs@.contains_key((owner, p))
            ==> state.mock_reach_of(slots, owner, ri) == Reach::To(Target::Gadget(state.outputs@[(owner, p)])),
        slots[ri] == Some(Slot::Via { previous: None, port: Some(Port::Input(p)) }) && state.gadgets@.contains_key(owner) && p
            < state.connectors(owner).len() ==> state.mock_reach_of(slots, owner, ri) == Reach::To(
            Target::Gadget(state.connectors(owner)[p as int].gid),
        ),
        slots[ri] is None ==> state.mock_reach_of(slots, owner, ri) == Reach::Removed,
        slots[ri] matches Some(Slot::Known(target)) ==> state.mock_reach_of(slots, owner, ri) == Reach::To(target),
{
}

/// A slot by way of another slot leads one port further than the gadget there.
pub proof fn law_recorded_reference_goes_one_port_further(
    state: MockCoordinatorState,
    slots: Seq<Option<Slot>>,
    owner: u64,
    ri: int,
    fuel: nat,
    previous: u64,
    via: u64,
    p: u64,
)
    requires
        0 <= ri < slots.len(),
        state.mock_reach(slots, owner, previous as int, fuel) == Reach::To(Target::Gadget(via)),
    ensures
        slots[ri] == Some(Slot::Via { previous: Some(previous), port: Some(Port::Output(p)) }) && state.outputs@.contains_key(
            (via, p),
        ) ==> state.mock_reach(slots, owner, ri, fuel + 1) == Reach::To(Target::Gadget(state.outputs@[(via, p)])),
        slots[ri] == Some(Slot::Via { previous: Some(previous), port: Some(Port::Input(p)) }) && state.gadgets@.contains_key(
            via,
        ) && p < state.connectors(via).len() ==> state.mock_reach(slots, owner, ri, fuel + 1) == Reach::To(
            Target::Gadget(state.connectors(via)[p as int].gid),
        ),
{
}

/// An instruction that is answered with an id is recorded behind the others, and found under
/// this id.
pub proof fn law_answered_instruction_is_recorded(
    before: MockCoordinatorState,
    instruction: Instruction,
    id: u64,
    after: MockCoordinatorState,
)
    requires
        MockCoordinatorState::executed(before, instruction, MockAnswer::Id(id), after),
    ensures
        after.instructions@ == before.instructions@.push(instruction),
        instruction.create matches Some(Create::Gadget(g)) ==> {
            &&& after.gadgets@.contains_key(id)
            &&& after.gadgets@[id] == before.instructions@.len()
            &&& g.gid != 0 ==> id == g.gid
            &&& g.gid == 0 ==> !before.gadgets@.contains_key(id)
        },
        instruction.create matches Some(Create::CheckModel(c)) ==> {
            &&& after.check_models@.contains_key(id)
            &&& after.check_models@[id] == before.instructions@.len()
            &&& c.cid != 0 ==> id == c.cid
            &&& c.cid == 0 ==> !before.check_models@.contains_key(id)
        },
        instruction.create matches Some(Create::ErrorModel(e)) ==> {
            &&& after.error_models@.contains_key(id)
            &&& after.error_models@[id] == before.instructions@.len()
            &&& e.eid != 0 ==> id == e.eid
            &&& e.eid == 0 ==> !before.error_models@.contains_key(id)
        },
        instruction.create is Some,
        after.libraries == before.libraries,
{
}

/// In an effective error model a slot that a mechanism uses stands for the check model that
/// the slot names, or for one of the gadget that the slot leads to.
pub proof fn law_effective_error_model_names_its_check_models(
    state: MockCoordinatorState,
    eid: u64,
    effective: EffectiveErrorModelType,
    e: int,
    c: int,
    slot: u64,
)
    requires
        state.is_effective_error_model(eid, effective),
        0 <= e < state.errors_of(eid).len(),
        0 <= c < state.errors_of(eid)[e].checks.len(),
        state.errors_of(eid)[e].checks[c].remote_check_model == Some(slot),
        slot < state.check_model_slots_of(eid).len(),
    ensures
        slot < effective.remote_check_models@.len(),
        ({
            let found = state.mock_reach_of(
                state.check_model_slots_of(eid),
                state.check_model(state.error_model(eid).cid).gid,
                slot as int,
            );
            let cid = effective.remote_check_models@[slot as int];
            &&& found matches Reach::To(Target::CheckModel(named)) ==> cid == named
            &&& found matches Reach::To(Target::Gadget(gid)) ==> state.check_models@.contains_key(cid)
                && state.check_model(cid).gid == gid
            &&& found is To
        }),
{
    let errors = state.errors_of(eid);
    law_used_by_errors_are_the_named_slots(errors, errors.len() as int, slot);
    let used = state.check_model_slots_used(eid);
    let expanded = choose|expanded: Seq<Option<u64>>|
        {
            &&& #[trigger] state.are_remote_check_models(eid, expanded)
            &&& targets_known(used, expanded)
            &&& are_targets(used, expanded, effective.remote_check_models@)
        };
    let k = used.index_of(slot);
    assert(used[k] < expanded.len());
    assert(expanded[slot as int] is Some);
    assert(effective.remote_check_models@[slot as int] == expanded[slot as int]->0);
    assert(state.check_model_at(
        state.mock_reach_of(state.check_model_slots_of(eid), state.error_model_owner(eid), slot as int),
        expanded[slot as int],
    ));
    let cid = expanded[slot as int]->0;
}

} // verus!
