//! The controller of just-in-time compilation: it turns instructions into requests to a
//! coordinator, with types shared where they say the same.
use crate::bin;
use crate::bin::{
    checks_view, copy_checks, copy_errors, copy_vec, errors_view, BitMatrix, CheckModelModifier, CheckModelType,
    ErrorModelModifier, ErrorModelType, GadgetType, PortType, ProbabilityModifier, Propagation, Readout,
    RemoteCheckModel, RemoteGadget, RerouteRemoteCheckModel, RerouteRemoteGadget,
};
use crate::collections::IdSet;
use crate::coordinator::{Readouts, ResetRequest};
use crate::jit::{JitGadgetType, JitInstruction, JitLibrary, JitPortType};
use crate::jit_compiler::{JitCompiler, JitGadgetState};
use crate::jit_progress::{next_revision, WaitsSpec};
use crate::status::{append_decimal, decimal, labelled_then, Status, StatusCode};
use crate::type_cache::{check_key, error_key, TypeCache};
use vstd::prelude::*;

verus! {

/// How the controller is set up.
#[derive(Debug)]
pub struct JitControllerConfig {
    /// a library file that is loaded at the start
    pub filepath: Option<String>,
    /// share types that say the same
    pub cache_enabled: bool,
}

/// Types are shared unless this is switched off.
pub fn default_cache_enabled() -> (enabled: bool)
    ensures
        enabled,
{
    true
}

// ---------------------------------------------------------------------------
// Modifiers
// ---------------------------------------------------------------------------

/// Every remote gadget slot, overridden by itself.
pub open spec fn gadget_reroutes(remotes: Seq<RemoteGadget>) -> Seq<RerouteRemoteGadget> {
    Seq::new(remotes.len(), |i: int| RerouteRemoteGadget { remote_gadget_index: i as u64, value: Some(remotes[i]) })
}

/// Every remote check model slot, overridden by itself.
pub open spec fn check_model_reroutes(remotes: Seq<RemoteCheckModel>) -> Seq<RerouteRemoteCheckModel> {
    Seq::new(remotes.len(), |i: int| RerouteRemoteCheckModel { remote_check_model_index: i as u64, value: Some(remotes[i]) })
}

/// The modifier that gives an instance the remote gadgets of its own type, which a
/// shared type may name differently. None if there are no remote gadgets.
pub fn build_check_model_modifier(check_model_type: &CheckModelType) -> (modifier: Option<CheckModelModifier>)
    ensures
        modifier is None == (check_model_type.remote_gadgets@.len() == 0),
        modifier matches Some(m) ==> m.reroute_remote_gadgets@ == gadget_reroutes(check_model_type.remote_gadgets@),
{
    if check_model_type.remote_gadgets.len() == 0 {
        return None;
    }
    let ghost all = gadget_reroutes(check_model_type.remote_gadgets@);
    let mut reroutes: Vec<RerouteRemoteGadget> = Vec::new();
    let mut i: usize = 0;
    while i < check_model_type.remote_gadgets.len()
        invariant
            i <= check_model_type.remote_gadgets@.len(),
            all == gadget_reroutes(check_model_type.remote_gadgets@),
            reroutes@ =~= all.take(i as int),
        decreases check_model_type.remote_gadgets@.len() - i,
    {
        reroutes.push(RerouteRemoteGadget { remote_gadget_index: i as u64, value: Some(check_model_type.remote_gadgets[i]) });
        i += 1;
    }
    Some(CheckModelModifier { reroute_remote_gadgets: reroutes })
}

/// A probability modifier with the same entries.
pub open spec fn same_probabilities(a: ProbabilityModifier, b: ProbabilityModifier) -> bool {
    &&& a.probabilities@ == b.probabilities@
    &&& a.sparse_indices@ == b.sparse_indices@
    &&& a.sparse_probabilities@ == b.sparse_probabilities@
}

/// The probability modifier of an instance.
pub open spec fn probability_modifier_of(error_model: bin::ErrorModel) -> Option<ProbabilityModifier> {
    match error_model.modifier {
        Some(m) => m.probability_modifier,
        None => None,
    }
}

/// The modifier that gives an instance the remote check models of its own type, and its
/// probabilities. None if there is neither.
pub fn build_error_model_modifier(error_model_type: &ErrorModelType, error_model: &bin::ErrorModel) -> (modifier: Option<ErrorModelModifier>)
    ensures
        modifier is None == (error_model_type.remote_check_models@.len() == 0 && probability_modifier_of(*error_model) is None),
        modifier matches Some(m) ==> {
            &&& m.reroute_remote_check_models@ == check_model_reroutes(error_model_type.remote_check_models@)
            &&& match probability_modifier_of(*error_model) {
                Some(pm) => m.probability_modifier is Some && same_probabilities(pm, m.probability_modifier->0),
                None => m.probability_modifier is None,
            }
        },
{
    let ghost all = check_model_reroutes(error_model_type.remote_check_models@);
    let mut reroutes: Vec<RerouteRemoteCheckModel> = Vec::new();
    let mut i: usize = 0;
    while i < error_model_type.remote_check_models.len()
        invariant
            i <= error_model_type.remote_check_models@.len(),
            all == check_model_reroutes(error_model_type.remote_check_models@),
            reroutes@ =~= all.take(i as int),
        decreases error_model_type.remote_check_models@.len() - i,
    {
        reroutes.push(
            RerouteRemoteCheckModel { remote_check_model_index: i as u64, value: Some(error_model_type.remote_check_models[i]) },
        );
        i += 1;
    }
    let probability_modifier = match &error_model.modifier {
        Some(m) => match &m.probability_modifier {
            Some(pm) => Some(
                ProbabilityModifier {
                    probabilities: copy_vec(&pm.probabilities),
                    sparse_indices: copy_vec(&pm.sparse_indices),
                    sparse_probabilities: copy_vec(&pm.sparse_probabilities),
                },
            ),
            None => None,
        },
        None => None,
    };
    if reroutes.len() == 0 && probability_modifier.is_none() {
        None
    } else {
        Some(ErrorModelModifier { probability_modifier, reroute_remote_check_models: reroutes })
    }
}

// ---------------------------------------------------------------------------
// Batches
// ---------------------------------------------------------------------------

/// Why a batch of instructions is refused.
#[derive(Debug, Clone, Copy, PartialEq, Eq, Structural)]
pub enum BatchExecuteError {
    MissingGadget { index: usize },
    ZeroGid { index: usize },
    DuplicateGid { gid: u64, index: usize },
    MissingDependency { index: usize, gid: u64, missing_gid: u64 },
}

impl BatchExecuteError {
    /// The message of a refusal.
    pub open spec fn message(&self) -> Seq<char> {
        match *self {
            BatchExecuteError::MissingGadget { index } => "instruction at index "@ + decimal(index as nat) + " has no gadget"@,
            BatchExecuteError::ZeroGid { index } => "instruction at index "@ + decimal(index as nat)
                + " has gid=0; all batch instructions must specify non-zero gid"@,
            BatchExecuteError::DuplicateGid { gid, index } => "instruction at index "@ + decimal(index as nat) + " has duplicate gid="@
                + decimal(gid as nat),
            BatchExecuteError::MissingDependency { index, gid, missing_gid } => "instruction at index "@ + decimal(index as nat)
                + " (gid="@ + decimal(gid as nat) + ") depends on gid="@ + decimal(missing_gid as nat) + " which does not exist"@,
        }
    }

    /// The text of a refusal.
    pub fn text(&self) -> (text: String)
        ensures
            text@ == self.message(),
    {
        match *self {
            BatchExecuteError::MissingGadget { index } => labelled_then("instruction at index ", index as u64, " has no gadget"),
            BatchExecuteError::ZeroGid { index } => labelled_then(
                "instruction at index ",
                index as u64,
                " has gid=0; all batch instructions must specify non-zero gid",
            ),
            BatchExecuteError::DuplicateGid { gid, index } => {
                let mut text = labelled_then("instruction at index ", index as u64, " has duplicate gid=");
                append_decimal(&mut text, gid);
                text
            },
            BatchExecuteError::MissingDependency { index, gid, missing_gid } => {
                let mut text = labelled_then("instruction at index ", index as u64, " (gid=");
                append_decimal(&mut text, gid);
                text.append(") depends on gid=");
                append_decimal(&mut text, missing_gid);
                text.append(" which does not exist");
                text
            },
        }
    }

    /// The answer to a request with a refused batch.
    pub fn to_status(&self) -> (status: Status)
        ensures
            status.is(StatusCode::InvalidArgument, self.message()),
    {
        Status { code: StatusCode::InvalidArgument, message: self.text() }
    }
}

/// The id that instruction `i` asks for.
pub open spec fn batch_gid(instructions: Seq<JitInstruction>, i: int) -> u64 {
    instructions[i].gadget->0.gid
}

/// Some instruction of the first `n` asks for `gid`.
pub open spec fn asked_for(instructions: Seq<JitInstruction>, gid: u64, n: int) -> bool {
    exists|k: int| 0 <= k < n && #[trigger] batch_gid(instructions, k) == gid
}

/// Instruction `i` asks for an id of its own.
pub open spec fn names_itself(instructions: Seq<JitInstruction>, i: int) -> bool {
    &&& instructions[i].gadget is Some
    &&& batch_gid(instructions, i) != 0
    &&& !asked_for(instructions, batch_gid(instructions, i), i)
}

/// Connector `k` of instruction `i` names a gadget of the batch or one that was compiled.
pub open spec fn depends_on_known(instructions: Seq<JitInstruction>, known: Map<u64, JitGadgetState>, i: int, k: int) -> bool {
    let gid = instructions[i].gadget->0.connectors@[k].gid;
    asked_for(instructions, gid, instructions.len() as int) || known.contains_key(gid)
}

/// All connectors of instruction `i` name gadgets that there are.
pub open spec fn dependencies_known(instructions: Seq<JitInstruction>, known: Map<u64, JitGadgetState>, i: int) -> bool {
    forall|k: int|
        0 <= k < instructions[i].gadget->0.connectors@.len() ==> #[trigger] depends_on_known(instructions, known, i, k)
}

/// The first refusal of a batch: ids are checked first, for all instructions, then
/// dependencies.
pub open spec fn batch_refused(instructions: Seq<JitInstruction>, known: Map<u64, JitGadgetState>, error: BatchExecuteError) -> bool {
    match error {
        BatchExecuteError::MissingGadget { index } => {
            &&& index < instructions.len()
            &&& forall|i: int| 0 <= i < index ==> #[trigger] names_itself(instructions, i)
            &&& instructions[index as int].gadget is None
        },
        BatchExecuteError::ZeroGid { index } => {
            &&& index < instructions.len()
            &&& forall|i: int| 0 <= i < index ==> #[trigger] names_itself(instructions, i)
            &&& instructions[index as int].gadget is Some
            &&& batch_gid(instructions, index as int) == 0
        },
        BatchExecuteError::DuplicateGid { gid, index } => {
            &&& index < instructions.len()
            &&& forall|i: int| 0 <= i < index ==> #[trigger] names_itself(instructions, i)
            &&& instructions[index as int].gadget is Some
            &&& gid == batch_gid(instructions, index as int)
            &&& gid != 0
            &&& asked_for(instructions, gid, index as int)
        },
        BatchExecuteError::MissingDependency { index, gid, missing_gid } => {
            &&& index < instructions.len()
            &&& forall|i: int| 0 <= i < instructions.len() ==> #[trigger] names_itself(instructions, i)
            &&& forall|i: int| 0 <= i < index ==> #[trigger] dependencies_known(instructions, known, i)
            &&& gid == batch_gid(instructions, index as int)
            &&& first_unknown(instructions, known, index as int, missing_gid)
        },
    }
}

/// The first connector of instruction `i` that names no gadget names `missing`.
pub open spec fn first_unknown(instructions: Seq<JitInstruction>, known: Map<u64, JitGadgetState>, i: int, missing: u64) -> bool {
    exists|k: int|
        {
            &&& 0 <= k < instructions[i].gadget->0.connectors@.len()
            &&& !#[trigger] depends_on_known(instructions, known, i, k)
            &&& instructions[i].gadget->0.connectors@[k].gid == missing
            &&& forall|j: int| 0 <= j < k ==> #[trigger] depends_on_known(instructions, known, i, j)
        }
}

/// The instructions of the batch that the first `n` connectors of instruction `i` name.
pub open spec fn dependencies_of(instructions: Seq<JitInstruction>, i: int, n: int) -> Seq<usize>
    decreases n,
{
    if n <= 0 {
        Seq::empty()
    } else {
        let before = dependencies_of(instructions, i, n - 1);
        let gid = instructions[i].gadget->0.connectors@[n - 1].gid;
        if asked_for(instructions, gid, instructions.len() as int) {
            before.push((choose|k: int| 0 <= k < instructions.len() && #[trigger] batch_gid(instructions, k) == gid) as usize)
        } else {
            before
        }
    }
}

/// The instruction that asks for an id.
fn find_gid(instructions: &Vec<JitInstruction>, gid: u64, n: usize) -> (index: Option<usize>)
    requires
        n <= instructions@.len(),
        forall|i: int| 0 <= i < n ==> #[trigger] names_itself(instructions@, i),
    ensures
        index is Some == asked_for(instructions@, gid, n as int),
        index matches Some(k) ==> k < n && batch_gid(instructions@, k as int) == gid,
{
    let mut k: usize = 0;
    while k < n
        invariant
            k <= n <= instructions@.len(),
            forall|i: int| 0 <= i < n ==> #[trigger] names_itself(instructions@, i),
            forall|i: int| 0 <= i < k ==> #[trigger] batch_gid(instructions@, i) != gid,
        decreases n - k,
    {
        assert(names_itself(instructions@, k as int));
        let found = match &instructions[k].gadget {
            Some(gadget) => gadget.gid == gid,
            None => false,
        };
        if found {
            assert(batch_gid(instructions@, k as int) == gid);
            return Some(k);
        }
        assert(batch_gid(instructions@, k as int) != gid);
        k += 1;
    }
    None
}

/// Checks the ids of a batch.
fn check_ids(instructions: &Vec<JitInstruction>) -> (error: Option<BatchExecuteError>)
    ensures
        match error {
            None => forall|i: int| 0 <= i < instructions@.len() ==> #[trigger] names_itself(instructions@, i),
            Some(e) => !(e is MissingDependency) && forall|known: Map<u64, JitGadgetState>| #[trigger]
                batch_refused(instructions@, known, e),
        },
{
    let mut index: usize = 0;
    while index < instructions.len()
        invariant
            index <= instructions@.len(),
            forall|i: int| 0 <= i < index ==> #[trigger] names_itself(instructions@, i),
        decreases instructions@.len() - index,
    {
        let Some(gadget) = &instructions[index].gadget else {
            return Some(BatchExecuteError::MissingGadget { index });
        };
        let gid: u64 = gadget.gid;
        assert(batch_gid(instructions@, index as int) == gid);
        if gid == 0 {
            return Some(BatchExecuteError::ZeroGid { index });
        }
        if find_gid(instructions, gid, index).is_some() {
            return Some(BatchExecuteError::DuplicateGid { gid, index });
        }
        assert(names_itself(instructions@, index as int));
        index += 1;
    }
    None
}

/// Two instructions of a batch ask for different ids.
proof fn lemma_gids_distinct(instructions: Seq<JitInstruction>, a: int, b: int)
    requires
        forall|i: int| 0 <= i < instructions.len() ==> #[trigger] names_itself(instructions, i),
        0 <= a < instructions.len(),
        0 <= b < instructions.len(),
        batch_gid(instructions, a) == batch_gid(instructions, b),
    ensures
        a == b,
{
    assert(names_itself(instructions, a) && names_itself(instructions, b));
    if a < b {
        assert(asked_for(instructions, batch_gid(instructions, b), b));
    }
    if b < a {
        assert(asked_for(instructions, batch_gid(instructions, a), a));
    }
}

/// Checks a batch: every instruction asks for an id of its own, and every connector
/// names a gadget of the batch or one that was compiled. Gives the instructions that
/// each instruction is to follow.
pub fn check_batch(instructions: &Vec<JitInstruction>, compiler: &JitCompiler) -> (result: Result<Vec<Vec<usize>>, BatchExecuteError>)
    ensures
        match result {
            Ok(dependencies) => {
                &&& forall|i: int| 0 <= i < instructions@.len() ==> #[trigger] names_itself(instructions@, i)
                &&& forall|i: int| 0 <= i < instructions@.len() ==> #[trigger] dependencies_known(instructions@, compiler.gadgets@, i)
                &&& dependencies@.len() == instructions@.len()
                &&& forall|i: int|
                    0 <= i < instructions@.len() ==> (#[trigger] dependencies@[i])@ == dependencies_of(
                        instructions@,
                        i,
                        instructions@[i].gadget->0.connectors@.len() as int,
                    )
            },
            Err(e) => batch_refused(instructions@, compiler.gadgets@, e),
        },
{
    if let Some(error) = check_ids(instructions) {
        assert(batch_refused(instructions@, compiler.gadgets@, error));
        return Err(error);
    }
    let ghost known = compiler.gadgets@;
    let mut dependencies: Vec<Vec<usize>> = Vec::new();
    let mut index: usize = 0;
    while index < instructions.len()
        invariant
            index <= instructions@.len(),
            known == compiler.gadgets@,
            forall|i: int| 0 <= i < instructions@.len() ==> #[trigger] names_itself(instructions@, i),
            forall|i: int| 0 <= i < index ==> #[trigger] dependencies_known(instructions@, known, i),
            dependencies@.len() == index,
            forall|i: int|
                0 <= i < index ==> (#[trigger] dependencies@[i])@ == dependencies_of(
                    instructions@,
                    i,
                    instructions@[i].gadget->0.connectors@.len() as int,
                ),
        decreases instructions@.len() - index,
    {
        assert(names_itself(instructions@, index as int));
        let gadget = instructions[index].gadget.as_ref().unwrap();
        let ghost connectors = instructions@[index as int].gadget->0.connectors@;
        let mut list: Vec<usize> = Vec::new();
        let mut k: usize = 0;
        while k < gadget.connectors.len()
            invariant
                index < instructions@.len(),
                known == compiler.gadgets@,
                k <= connectors.len(),
                instructions@[index as int].gadget is Some,
                *gadget == instructions@[index as int].gadget->0,
                connectors == gadget.connectors@,
                forall|i: int| 0 <= i < instructions@.len() ==> #[trigger] names_itself(instructions@, i),
                forall|i: int| 0 <= i < index ==> #[trigger] dependencies_known(instructions@, known, i),
                forall|j: int| 0 <= j < k ==> #[trigger] depends_on_known(instructions@, known, index as int, j),
                list@ == dependencies_of(instructions@, index as int, k as int),
            decreases connectors.len() - k,
        {
            let peer: u64 = gadget.connectors[k].gid;
            match find_gid(instructions, peer, instructions.len()) {
                Some(at) => {
                    proof {
                        let chosen = choose|k: int| 0 <= k < instructions@.len() && #[trigger] batch_gid(instructions@, k) == peer;
                        lemma_gids_distinct(instructions@, chosen, at as int);
                    }
                    list.push(at);
                },
                None => {
                    if !compiler.contains_gid(peer) {
                        assert(!depends_on_known(instructions@, known, index as int, k as int));
                        return Err(BatchExecuteError::MissingDependency { index, gid: gadget.gid, missing_gid: peer });
                    }
                },
            }
            assert(depends_on_known(instructions@, known, index as int, k as int));
            k += 1;
        }
        assert(dependencies_known(instructions@, known, index as int));
        dependencies.push(list);
        index += 1;
    }
    Ok(dependencies)
}

/// The instruction that a batch is refused at.
pub open spec fn refused_at(error: BatchExecuteError) -> int {
    match error {
        BatchExecuteError::MissingGadget { index } => index as int,
        BatchExecuteError::ZeroGid { index } => index as int,
        BatchExecuteError::DuplicateGid { gid, index } => index as int,
        BatchExecuteError::MissingDependency { index, gid, missing_gid } => index as int,
    }
}

/// A batch is refused for one reason only.
pub proof fn law_batch_is_refused_for_one_reason(
    instructions: Seq<JitInstruction>,
    known: Map<u64, JitGadgetState>,
    a: BatchExecuteError,
    b: BatchExecuteError,
)
    requires
        batch_refused(instructions, known, a),
        batch_refused(instructions, known, b),
    ensures
        a == b,
{
    let (i, j) = (refused_at(a), refused_at(b));
    assert(!(a is MissingDependency) ==> !names_itself(instructions, i));
    assert(!(b is MissingDependency) ==> !names_itself(instructions, j));
    if a is MissingDependency && b is MissingDependency {
        let (ma, mb) = (a->missing_gid, b->missing_gid);
        assert(!dependencies_known(instructions, known, i)) by {
            let k = choose|k: int|
                {
                    &&& 0 <= k < instructions[i].gadget->0.connectors@.len()
                    &&& !#[trigger] depends_on_known(instructions, known, i, k)
                    &&& instructions[i].gadget->0.connectors@[k].gid == ma
                    &&& forall|j: int| 0 <= j < k ==> #[trigger] depends_on_known(instructions, known, i, j)
                };
            assert(!depends_on_known(instructions, known, i, k));
        }
        assert(!dependencies_known(instructions, known, j)) by {
            let k = choose|k: int|
                {
                    &&& 0 <= k < instructions[j].gadget->0.connectors@.len()
                    &&& !#[trigger] depends_on_known(instructions, known, j, k)
                    &&& instructions[j].gadget->0.connectors@[k].gid == mb
                    &&& forall|i: int| 0 <= i < k ==> #[trigger] depends_on_known(instructions, known, j, i)
                };
            assert(!depends_on_known(instructions, known, j, k));
        }
        assert(i == j);
    }
}

// ---------------------------------------------------------------------------
// The controller
// ---------------------------------------------------------------------------

/// The controller's state.
pub struct JitController {
    pub config: JitControllerConfig,
    pub compiler: JitCompiler,
    pub type_cache: TypeCache,
    pub next_ctype: u64,
    pub next_etype: u64,
    /// the types that are known from the start
    pub library: JitLibrary,
    /// the gadgets that were executed and not decoded yet
    pub undecoded: IdSet,
}

/// The number after a type number.
pub open spec fn next_number(n: u64) -> u64 {
    vstd::wrapping::u64_specs::wrapping_add(n, 1)
}

/// What executing an instruction asks of the coordinator: create the gadget, load the
/// check model type if it is new, then create the check model.
#[derive(Debug)]
pub struct Execution {
    pub gadget: bin::Gadget,
    pub new_type: Option<CheckModelType>,
    pub check_model: bin::CheckModel,
}

/// What a finished error model asks of the coordinator: load its type if it is new,
/// then create it.
#[derive(Debug)]
pub struct ErrorModelRequest {
    pub new_type: Option<ErrorModelType>,
    pub error_model: bin::ErrorModel,
}

/// How waiting for an error model ended.
#[derive(Debug)]
pub enum LoadOutcome {
    Loaded,
    Failed(Status),
    /// the task that was to load it ended without a word
    Dropped,
    /// the runtime was shut down or reset
    Cancelled,
}

/// Check model types that say the same, with the given number.
pub open spec fn same_check_model_type(a: CheckModelType, ctype: u64, b: CheckModelType) -> bool {
    &&& b.ctype == ctype
    &&& b.gtype == a.gtype
    &&& checks_view(b.checks@) == checks_view(a.checks@)
    &&& b.remote_gadgets@ == a.remote_gadgets@
}

/// Error model types that say the same, with the given number.
pub open spec fn same_error_model_type(a: ErrorModelType, etype: u64, b: ErrorModelType) -> bool {
    &&& b.etype == etype
    &&& b.ctype == a.ctype
    &&& errors_view(b.errors@) == errors_view(a.errors@)
    &&& b.remote_check_models@ == a.remote_check_models@
}

impl JitController {
    /// The controller's invariant.
    pub open spec fn wf(&self) -> bool {
        self.compiler.wf()
    }

    /// No type is loaded, no number is taken and nothing was executed.
    pub open spec fn is_new(&self) -> bool {
        &&& self.compiler.jit_port_types@ == Map::<u64, JitPortType>::empty()
        &&& self.compiler.jit_gadget_types@ == Map::<u64, JitGadgetType>::empty()
        &&& self.compiler.gadgets@ == Map::<u64, JitGadgetState>::empty()
        &&& self.compiler.current_gid == 1
        &&& self.type_cache.check_model_types@ == Map::<Seq<u64>, u64>::empty()
        &&& self.type_cache.error_model_types@ == Map::<Seq<u64>, u64>::empty()
        &&& self.next_ctype == 1
        &&& self.next_etype == 1
        &&& self.undecoded@ == Set::<u64>::empty()
    }

    /// A controller that has done nothing yet, with the library that its configuration
    /// names.
    pub fn new(config: JitControllerConfig, library: JitLibrary) -> (controller: JitController)
        ensures
            controller.wf(),
            controller.is_new(),
            controller.config == config,
            controller.library == library,
    {
        JitController {
            config,
            compiler: JitCompiler::new(),
            type_cache: TypeCache::new(),
            next_ctype: 1,
            next_etype: 1,
            library,
            undecoded: IdSet::new(),
        }
    }

    /// A controller for a library that is at hand.
    pub fn new_from_library(library: JitLibrary, cache_enabled: bool) -> (controller: JitController)
        ensures
            controller.wf(),
            controller.is_new(),
            controller.config == (JitControllerConfig { filepath: None, cache_enabled }),
            controller.library == library,
    {
        JitController::new(JitControllerConfig { filepath: None, cache_enabled }, library)
    }

    /// Takes the next number of a check model type.
    pub fn next_ctype(&mut self) -> (ctype: u64)
        ensures
            ctype == old(self).next_ctype,
            *final(self) == (JitController { next_ctype: next_number(old(self).next_ctype), ..*old(self) }),
    {
        let ctype: u64 = self.next_ctype;
        self.next_ctype = self.next_ctype.wrapping_add(1);
        ctype
    }

    /// Takes the next number of an error model type.
    pub fn next_etype(&mut self) -> (etype: u64)
        ensures
            etype == old(self).next_etype,
            *final(self) == (JitController { next_etype: next_number(old(self).next_etype), ..*old(self) }),
    {
        let etype: u64 = self.next_etype;
        self.next_etype = self.next_etype.wrapping_add(1);
        etype
    }

    /// Forgets which types are loaded; the numbers go on.
    pub fn clear_cache(&mut self)
        ensures
            *final(self) == (JitController { type_cache: final(self).type_cache, ..*old(self) }),
            final(self).type_cache.check_model_types@ == Map::<Seq<u64>, u64>::empty(),
            final(self).type_cache.error_model_types@ == Map::<Seq<u64>, u64>::empty(),
    {
        self.type_cache.clear();
    }

    /// The number for a check model type: that of a type that says the same, if types
    /// are shared and there is one; else the next one, with which the type is to be
    /// loaded.
    pub fn get_or_load_ctype(&mut self, check_model_type: &CheckModelType) -> (choice: (u64, Option<CheckModelType>))
        ensures
            final(self).config == old(self).config,
            final(self).library == old(self).library,
            final(self).compiler == old(self).compiler,
            final(self).next_etype == old(self).next_etype,
            final(self).undecoded == old(self).undecoded,
            final(self).type_cache.error_model_types == old(self).type_cache.error_model_types,
            ({
                let cached = old(self).type_cache.check_model_types@.get(check_key(*check_model_type));
                if old(self).config.cache_enabled && cached is Some {
                    &&& choice.0 == cached->0
                    &&& choice.1 is None
                    &&& final(self).next_ctype == old(self).next_ctype
                    &&& final(self).type_cache == old(self).type_cache
                } else {
                    &&& choice.0 == old(self).next_ctype
                    &&& choice.1 is Some
                    &&& same_check_model_type(*check_model_type, choice.0, choice.1->0)
                    &&& final(self).next_ctype == next_number(old(self).next_ctype)
                    &&& final(self).type_cache.check_model_types@ == (if old(self).config.cache_enabled {
                        old(self).type_cache.check_model_types@.insert(check_key(*check_model_type), choice.0)
                    } else {
                        old(self).type_cache.check_model_types@
                    })
                }
            }),
    {
        if self.config.cache_enabled {
            if let Some(cached) = self.type_cache.get_check_model_type(check_model_type) {
                return (cached, None);
            }
        }
        let ctype: u64 = self.next_ctype();
        if self.config.cache_enabled {
            self.type_cache.insert_check_model_type(check_model_type, ctype);
        }
        let loaded = CheckModelType {
            ctype,
            gtype: check_model_type.gtype,
            checks: copy_checks(&check_model_type.checks),
            remote_gadgets: copy_vec(&check_model_type.remote_gadgets),
        };
        (ctype, Some(loaded))
    }

    /// The number for an error model type: that of a type that says the same, if types
    /// are shared and there is one; else the next one, with which the type is to be
    /// loaded.
    pub fn get_or_load_etype(&mut self, error_model_type: &ErrorModelType) -> (choice: (u64, Option<ErrorModelType>))
        ensures
            final(self).config == old(self).config,
            final(self).library == old(self).library,
            final(self).compiler == old(self).compiler,
            final(self).next_ctype == old(self).next_ctype,
            final(self).undecoded == old(self).undecoded,
            final(self).type_cache.check_model_types == old(self).type_cache.check_model_types,
            ({
                let cached = old(self).type_cache.error_model_types@.get(error_key(*error_model_type));
                if old(self).config.cache_enabled && cached is Some {
                    &&& choice.0 == cached->0
                    &&& choice.1 is None
                    &&& final(self).next_etype == old(self).next_etype
                    &&& final(self).type_cache == old(self).type_cache
                } else {
                    &&& choice.0 == old(self).next_etype
                    &&& choice.1 is Some
                    &&& same_error_model_type(*error_model_type, choice.0, choice.1->0)
                    &&& final(self).next_etype == next_number(old(self).next_etype)
                    &&& final(self).type_cache.error_model_types@ == (if old(self).config.cache_enabled {
                        old(self).type_cache.error_model_types@.insert(error_key(*error_model_type), choice.0)
                    } else {
                        old(self).type_cache.error_model_types@
                    })
                }
            }),
    {
        if self.config.cache_enabled {
            if let Some(cached) = self.type_cache.get_error_model_type(error_model_type) {
                return (cached, None);
            }
        }
        let etype: u64 = self.next_etype();
        if self.config.cache_enabled {
            self.type_cache.insert_error_model_type(error_model_type, etype);
        }
        let loaded = ErrorModelType {
            etype,
            ctype: error_model_type.ctype,
            errors: copy_errors(&error_model_type.errors),
            remote_check_models: copy_vec(&error_model_type.remote_check_models),
        };
        (etype, Some(loaded))
    }

    /// Executes an instruction: the gadget is compiled, its check model gets the number
    /// of its type, and names its own remote gadgets. `None`, with nothing changed, if
    /// the gadget cannot be compiled.
    pub fn execute(&mut self, gadget: bin::Gadget) -> (execution: Option<Execution>)
        requires
            old(self).wf(),
        ensures
            final(self).wf(),
            match execution {
                None => !old(self).compiler.compilable(gadget) && *final(self) == *old(self),
                Some(e) => {
                    let gid = old(self).compiler.new_gid(gadget);
                    &&& old(self).compiler.compilable(gadget)
                    &&& old(self).compiler.compiled_state(gadget, final(self).compiler)
                    &&& final(self).undecoded@ == old(self).undecoded@.insert(gid)
                    &&& final(self).config == old(self).config
                    &&& final(self).library == old(self).library
                    &&& final(self).next_etype == old(self).next_etype
                    &&& final(self).type_cache.error_model_types == old(self).type_cache.error_model_types
                    &&& executed(*old(self), gadget, e, *final(self))
                },
            },
    {
        let ghost start = *self;
        let Some(compiled) = self.compiler.compile(gadget) else {
            return None;
        };
        let gid: u64 = compiled.gadget.gid;
        self.undecoded.insert(gid);
        let (ctype, new_type) = self.get_or_load_ctype(&compiled.check_model_type);
        let modifier = build_check_model_modifier(&compiled.check_model_type);
        let execution = Execution {
            gadget: compiled.gadget,
            new_type,
            check_model: bin::CheckModel { cid: compiled.check_model.cid, ctype, gid, modifier },
        };
        proof {
            assert(start.compiler.is_compiled(gadget, compiled));
            assert(executed_as(start, gadget, compiled.check_model_type, execution, *self));
        }
        Some(execution)
    }

    /// What a finished error model asks of the coordinator.
    pub fn finish_error_model(&mut self, error_model_type: &ErrorModelType, error_model: &bin::ErrorModel) -> (request: ErrorModelRequest)
        requires
            old(self).wf(),
        ensures
            final(self).wf(),
            final(self).config == old(self).config,
            final(self).library == old(self).library,
            final(self).compiler == old(self).compiler,
            final(self).next_ctype == old(self).next_ctype,
            final(self).undecoded == old(self).undecoded,
            final(self).type_cache.check_model_types == old(self).type_cache.check_model_types,
            request.error_model.eid == error_model.eid,
            request.error_model.cid == error_model.cid,
            request.error_model.modifier is None == (error_model_type.remote_check_models@.len() == 0 && probability_modifier_of(
                *error_model,
            ) is None),
            request.error_model.modifier matches Some(m) ==> {
                &&& m.reroute_remote_check_models@ == check_model_reroutes(error_model_type.remote_check_models@)
                &&& match probability_modifier_of(*error_model) {
                    Some(pm) => m.probability_modifier is Some && same_probabilities(pm, m.probability_modifier->0),
                    None => m.probability_modifier is None,
                }
            },
            ({
                let cached = old(self).type_cache.error_model_types@.get(error_key(*error_model_type));
                if old(self).config.cache_enabled && cached is Some {
                    &&& request.error_model.etype == cached->0
                    &&& request.new_type is None
                    &&& final(self).next_etype == old(self).next_etype
                    &&& final(self).type_cache == old(self).type_cache
                } else {
                    &&& request.error_model.etype == old(self).next_etype
                    &&& request.new_type is Some
                    &&& same_error_model_type(*error_model_type, old(self).next_etype, request.new_type->0)
                    &&& final(self).next_etype == next_number(old(self).next_etype)
                    &&& final(self).type_cache.error_model_types@ == (if old(self).config.cache_enabled {
                        old(self).type_cache.error_model_types@.insert(error_key(*error_model_type), old(self).next_etype)
                    } else {
                        old(self).type_cache.error_model_types@
                    })
                }
            }),
    {
        let (etype, new_type) = self.get_or_load_etype(error_model_type);
        let modifier = build_error_model_modifier(error_model_type, error_model);
        ErrorModelRequest {
            new_type,
            error_model: bin::ErrorModel { eid: error_model.eid, etype, cid: error_model.cid, modifier },
        }
    }

    /// Lets a gadget be decoded: once, and only if it was executed.
    pub fn begin_decode(&mut self, gid: u64) -> (result: Result<(), Status>)
        requires
            old(self).wf(),
        ensures
            final(self).wf(),
            final(self).config == old(self).config,
            final(self).library == old(self).library,
            final(self).compiler == old(self).compiler,
            final(self).type_cache == old(self).type_cache,
            final(self).next_ctype == old(self).next_ctype,
            final(self).next_etype == old(self).next_etype,
            final(self).undecoded@ == old(self).undecoded@.remove(gid),
            result is Ok == old(self).undecoded@.contains(gid),
            result matches Err(status) ==> status.is(
                StatusCode::InvalidArgument,
                "decode called for unknown or already-decoded gid: "@ + decimal(gid as nat),
            ),
    {
        if self.undecoded.remove(gid) {
            Ok(())
        } else {
            Err(Status::with_id(StatusCode::InvalidArgument, "decode called for unknown or already-decoded gid: ", gid))
        }
    }

    /// Forgets all gadgets and, with the library, which types are loaded. Gives the
    /// request that goes on to the coordinator: a library that is reset takes the decoder
    /// service with it.
    pub fn reset(&mut self, flags: ResetRequest) -> (request: ResetRequest)
        requires
            old(self).wf(),
        ensures
            final(self).wf(),
            final(self).config == old(self).config,
            final(self).library == old(self).library,
            final(self).compiler.jit_port_types == old(self).compiler.jit_port_types,
            final(self).compiler.jit_gadget_types == old(self).compiler.jit_gadget_types,
            final(self).compiler.gadgets@ == Map::<u64, JitGadgetState>::empty(),
            final(self).compiler.current_gid == 1,
            final(self).compiler.waits@ == WaitsSpec::none(),
            final(self).compiler.waits.revision == next_revision(old(self).compiler.waits.revision),
            final(self).undecoded@ == Set::<u64>::empty(),
            final(self).next_ctype == old(self).next_ctype,
            final(self).next_etype == old(self).next_etype,
            request.reset_library == flags.reset_library,
            request.reset_decoder_service == (flags.reset_library || flags.reset_decoder_service),
            if flags.reset_library {
                &&& final(self).type_cache.check_model_types@ == Map::<Seq<u64>, u64>::empty()
                &&& final(self).type_cache.error_model_types@ == Map::<Seq<u64>, u64>::empty()
            } else {
                final(self).type_cache == old(self).type_cache
            },
    {
        self.compiler.reset();
        if flags.reset_library {
            self.clear_cache();
        }
        self.undecoded = IdSet::new();
        ResetRequest {
            reset_library: flags.reset_library,
            reset_decoder_service: flags.reset_library || flags.reset_decoder_service,
        }
    }

    /// Goes on once the coordinator was reset: without its library, the numbers start
    /// anew, and it is told the types that are known from the start.
    pub fn after_coordinator_reset(&mut self, request: ResetRequest) -> (types: Option<bin::Library>)
        ensures
            *final(self) == (if request.reset_library {
                JitController { next_ctype: 1, next_etype: 1, ..*old(self) }
            } else {
                *old(self)
            }),
            types is Some ==> request.reset_library && is_told(old(self).library, types->0),
            types is None && request.reset_library ==> tells_nothing(old(self).library),
    {
        if !request.reset_library {
            return None;
        }
        self.next_ctype = 1;
        self.next_etype = 1;
        coordinator_types(&self.library)
    }
}

/// What executing an instruction asks of the coordinator, where its check model type
/// came out as `model`.
pub open spec fn executed_as(
    before: JitController,
    request: bin::Gadget,
    model: CheckModelType,
    execution: Execution,
    after: JitController,
) -> bool {
    let gid = before.compiler.new_gid(request);
    let cached = before.type_cache.check_model_types@.get(check_key(model));
    &&& crate::jit_compiler::are_model_checks(
        model.checks@,
        model.remote_gadgets@,
        before.compiler.jit_gadget_types@[request.gtype].finished_checks@,
        crate::jit_compiler::inputs_of(before.compiler.gadgets@, request.connectors@),
        gid,
        before.compiler.gadgets@,
    )
    &&& model.gtype == request.gtype
    &&& execution.gadget == (bin::Gadget { gid, ..request })
    &&& execution.check_model.gid == gid
    &&& execution.check_model.cid == gid
    &&& execution.check_model.modifier is None == (model.remote_gadgets@.len() == 0)
    &&& execution.check_model.modifier matches Some(m) ==> m.reroute_remote_gadgets@ == gadget_reroutes(model.remote_gadgets@)
    &&& if before.config.cache_enabled && cached is Some {
        &&& execution.check_model.ctype == cached->0
        &&& execution.new_type is None
        &&& after.next_ctype == before.next_ctype
        &&& after.type_cache == before.type_cache
    } else {
        &&& execution.check_model.ctype == before.next_ctype
        &&& execution.new_type is Some
        &&& same_check_model_type(model, before.next_ctype, execution.new_type->0)
        &&& after.next_ctype == next_number(before.next_ctype)
        &&& after.type_cache.check_model_types@ == (if before.config.cache_enabled {
            before.type_cache.check_model_types@.insert(check_key(model), before.next_ctype)
        } else {
            before.type_cache.check_model_types@
        })
    }
}

/// What executing an instruction asks of the coordinator.
pub open spec fn executed(before: JitController, request: bin::Gadget, execution: Execution, after: JitController) -> bool {
    exists|model: CheckModelType| #[trigger] executed_as(before, request, model, execution, after)
}

/// What a request is answered with while there is no coordinator.
pub fn not_connected() -> (status: Status)
    ensures
        status.is(StatusCode::FailedPrecondition, "coordinator not connected"@),
{
    Status::new(StatusCode::FailedPrecondition, "coordinator not connected")
}

/// What a request to unload a library is answered with.
pub fn unload() -> (status: Status)
    ensures
        status.is(StatusCode::Unimplemented, "unload not implemented"@),
{
    Status::new(StatusCode::Unimplemented, "unload not implemented")
}

/// Whether a decode goes on, given how waiting for the error model ended.
pub fn decode_after_load(gid: u64, outcome: LoadOutcome) -> (result: Result<(), Status>)
    ensures
        match outcome {
            LoadOutcome::Loaded => result is Ok,
            LoadOutcome::Failed(status) => result == Err::<(), Status>(status),
            LoadOutcome::Dropped => result is Err && result->Err_0.is(
                StatusCode::Cancelled,
                "error-model load task ended for gid "@ + decimal(gid as nat),
            ),
            LoadOutcome::Cancelled => result is Err && result->Err_0.is(
                StatusCode::Cancelled,
                "decode for gid="@ + decimal(gid as nat) + " cancelled by runtime shutdown or reset"@,
            ),
        },
{
    match outcome {
        LoadOutcome::Loaded => Ok(()),
        LoadOutcome::Failed(status) => Err(status),
        LoadOutcome::Dropped => Err(Status::with_id(StatusCode::Cancelled, "error-model load task ended for gid ", gid)),
        LoadOutcome::Cancelled => Err(
            Status {
                code: StatusCode::Cancelled,
                message: labelled_then("decode for gid=", gid, " cancelled by runtime shutdown or reset"),
            },
        ),
    }
}

/// A decode of a batch succeeded.
pub open spec fn decoded(result: Option<Result<Readouts, Status>>) -> bool {
    result is Some && result->0 is Ok
}

/// The answers to a batch of decodes, in order; or the first failure. A decode without
/// a result was cancelled.
pub fn collect_readouts(results: Vec<Option<Result<Readouts, Status>>>) -> (all: Result<Vec<Readouts>, Status>)
    ensures
        match all {
            Ok(list) => {
                &&& list@.len() == results@.len()
                &&& forall|i: int| 0 <= i < results@.len() ==> #[trigger] results@[i] == Some(Ok::<Readouts, Status>(list@[i]))
            },
            Err(status) => exists|i: int|
                {
                    &&& 0 <= i < results@.len()
                    &&& !decoded(#[trigger] results@[i])
                    &&& forall|j: int| 0 <= j < i ==> decoded(#[trigger] results@[j])
                    &&& match results@[i] {
                        Some(r) => status == r->Err_0,
                        None => status.is(StatusCode::Cancelled, "batch decode cancelled by reset"@),
                    }
                },
        },
{
    let ghost given = results@;
    let mut list: Vec<Readouts> = Vec::new();
    for result in it: results
        invariant
            it.seq() == given,
            list@.len() == it.index(),
            forall|i: int| 0 <= i < it.index() ==> #[trigger] given[i] == Some(Ok::<Readouts, Status>(list@[i])),
    {
        let ghost n = it.index();
        assert(result == given[n]);
        match result {
            Some(Ok(readouts)) => {
                list.push(readouts);
            },
            Some(Err(status)) => {
                assert(!decoded(given[n]));
                return Err(status);
            },
            None => {
                assert(!decoded(given[n]));
                return Err(Status::new(StatusCode::Cancelled, "batch decode cancelled by reset"));
            },
        }
    }
    Ok(list)
}

// ---------------------------------------------------------------------------
// Library types for the coordinator
// ---------------------------------------------------------------------------

/// Two matrices, if there are any, with the same bits.
pub open spec fn same_matrix(a: Option<BitMatrix>, b: Option<BitMatrix>) -> bool {
    match (a, b) {
        (Some(x), Some(y)) => x.rows == y.rows && x.cols == y.cols && x.data@ == y.data@,
        (None, None) => true,
        _ => false,
    }
}

/// Two gadget types through which corrections travel alike.
pub open spec fn same_propagation(a: Propagation, b: Propagation) -> bool {
    &&& same_matrix(a.correction_propagation, b.correction_propagation)
    &&& same_matrix(a.readout_propagation, b.readout_propagation)
    &&& same_matrix(a.logical_correction, b.logical_correction)
    &&& same_matrix(a.physical_correction, b.physical_correction)
}

/// A copy of a matrix, if there is one.
fn copy_matrix(matrix: &Option<BitMatrix>) -> (copy: Option<BitMatrix>)
    ensures
        same_matrix(*matrix, copy),
{
    match matrix {
        Some(m) => Some(BitMatrix { rows: m.rows, cols: m.cols, data: copy_vec(&m.data) }),
        None => None,
    }
}

/// Two gadget types that say the same.
pub open spec fn same_gadget_type(a: GadgetType, b: GadgetType) -> bool {
    &&& a.gtype == b.gtype
    &&& a.inputs@ == b.inputs@
    &&& a.outputs@ == b.outputs@
    &&& a.num_measurements == b.num_measurements
    &&& a.is_free_hop == b.is_free_hop
    &&& same_propagation(a.propagation, b.propagation)
    &&& a.readouts@.len() == b.readouts@.len()
    &&& forall|i: int|
        0 <= i < a.readouts@.len() ==> (#[trigger] a.readouts@[i]).measurement_indices@ == b.readouts@[i].measurement_indices@
}

/// A copy of a gadget type.
fn copy_gadget_type(t: &GadgetType) -> (copy: GadgetType)
    ensures
        same_gadget_type(*t, copy),
{
    let mut readouts: Vec<Readout> = Vec::new();
    let mut i: usize = 0;
    while i < t.readouts.len()
        invariant
            i <= t.readouts@.len(),
            readouts@.len() == i,
            forall|k: int| 0 <= k < i ==> (#[trigger] t.readouts@[k]).measurement_indices@ == readouts@[k].measurement_indices@,
        decreases t.readouts@.len() - i,
    {
        readouts.push(Readout { measurement_indices: copy_vec(&t.readouts[i].measurement_indices) });
        i += 1;
    }
    GadgetType {
        gtype: t.gtype,
        inputs: copy_vec(&t.inputs),
        outputs: copy_vec(&t.outputs),
        num_measurements: t.num_measurements,
        readouts,
        is_free_hop: t.is_free_hop,
        propagation: Propagation {
            correction_propagation: copy_matrix(&t.propagation.correction_propagation),
            readout_propagation: copy_matrix(&t.propagation.readout_propagation),
            logical_correction: copy_matrix(&t.propagation.logical_correction),
            physical_correction: copy_matrix(&t.propagation.physical_correction),
        },
    }
}

/// A library without types.
pub open spec fn tells_nothing(library: JitLibrary) -> bool {
    library.port_types@.len() == 0 && library.gadget_types@.len() == 0
}

/// The port and gadget types of a library, as the coordinator knows them.
pub open spec fn is_told(library: JitLibrary, types: bin::Library) -> bool {
    &&& types.port_types@ == library.port_types@.map_values(|p: JitPortType| p.base)
    &&& types.gadget_types@.len() == library.gadget_types@.len()
    &&& forall|i: int|
        0 <= i < library.gadget_types@.len() ==> same_gadget_type(
            (#[trigger] library.gadget_types@[i]).base,
            types.gadget_types@[i],
        )
    &&& types.check_model_types@.len() == 0
    &&& types.error_model_types@.len() == 0
    &&& types.program@.len() == 0
}

/// The port and gadget types of a library, as the coordinator is to know them. None if
/// there is nothing to tell.
pub fn coordinator_types(library: &JitLibrary) -> (types: Option<bin::Library>)
    ensures
        types is None == tells_nothing(*library),
        types matches Some(t) ==> is_told(*library, t),
{
    if library.port_types.len() == 0 && library.gadget_types.len() == 0 {
        return None;
    }
    let ghost bases = library.port_types@.map_values(|p: JitPortType| p.base);
    let mut port_types: Vec<PortType> = Vec::new();
    let mut i: usize = 0;
    while i < library.port_types.len()
        invariant
            i <= library.port_types@.len(),
            bases == library.port_types@.map_values(|p: JitPortType| p.base),
            port_types@ =~= bases.take(i as int),
        decreases library.port_types@.len() - i,
    {
        let base = &library.port_types[i].base;
        port_types.push(PortType { ptype: base.ptype, observables: base.observables });
        i += 1;
    }
    let mut gadget_types: Vec<GadgetType> = Vec::new();
    i = 0;
    while i < library.gadget_types.len()
        invariant
            i <= library.gadget_types@.len(),
            gadget_types@.len() == i,
            forall|k: int|
                0 <= k < i ==> same_gadget_type((#[trigger] library.gadget_types@[k]).base, gadget_types@[k]),
        decreases library.gadget_types@.len() - i,
    {
        gadget_types.push(copy_gadget_type(&library.gadget_types[i].base));
        i += 1;
    }
    assert(port_types@ =~= bases);
    Some(
        bin::Library {
            port_types,
            gadget_types,
            check_model_types: Vec::new(),
            error_model_types: Vec::new(),
            program: Vec::new(),
        },
    )
}

/// An instruction of a batch depends on exactly the instructions whose gadgets its
/// connectors name.
pub proof fn law_dependencies_are_the_named_instructions(instructions: Seq<JitInstruction>, i: int, n: int, j: int)
    requires
        forall|a: int, b: int|
            0 <= a < b < instructions.len() ==> (#[trigger] instructions[a]).gadget->0.gid != (
            #[trigger] instructions[b]).gadget->0.gid,
        instructions.len() <= usize::MAX,
        0 <= i < instructions.len(),
        0 <= j < instructions.len(),
        0 <= n <= instructions[i].gadget->0.connectors@.len(),
    ensures
        dependencies_of(instructions, i, n).contains(j as usize) <==> exists|k: int|
            0 <= k < n && (#[trigger] instructions[i].gadget->0.connectors@[k]).gid == instructions[j].gadget->0.gid,
    decreases n,
{
    if n > 0 {
        law_dependencies_are_the_named_instructions(instructions, i, n - 1, j);
        let (before, after) = (dependencies_of(instructions, i, n - 1), dependencies_of(instructions, i, n));
        let gid = instructions[i].gadget->0.connectors@[n - 1].gid;
        if asked_for(instructions, gid, instructions.len() as int) {
            let k = choose|k: int| 0 <= k < instructions.len() && #[trigger] batch_gid(instructions, k) == gid;
            assert(0 <= k < instructions.len() && batch_gid(instructions, k) == gid);
            assert(after[before.len() as int] == k as usize);
            if before.contains(j as usize) {
                assert(after[before.index_of(j as usize)] == j as usize);
            }
            if after.contains(j as usize) {
                let x = after.index_of(j as usize);
                if x < before.len() {
                    assert(before[x] == j as usize);
                } else {
                    assert(k == j);
                    assert(instructions[i].gadget->0.connectors@[n - 1].gid == instructions[j].gadget->0.gid);
                }
            }
            if gid == instructions[j].gadget->0.gid {
                if k < j {
                    assert(instructions[k].gadget->0.gid != instructions[j].gadget->0.gid);
                } else if j < k {
                    assert(instructions[j].gadget->0.gid != instructions[k].gadget->0.gid);
                }
            }
        } else {
            assert(batch_gid(instructions, j) != gid);
        }
    }
}

/// An instance of a cached type reaches what it was compiled for: overriding every slot
/// gives the compiled slots, whatever the slots of the type.
pub proof fn law_overrides_restore_the_compiled_slots(
    base: Seq<RemoteGadget>,
    remotes: Seq<RemoteGadget>,
    modifier: bin::CheckModelModifier,
    i: int,
)
    requires
        modifier.reroute_remote_gadgets@ == gadget_reroutes(remotes),
        remotes.len() <= u64::MAX,
        0 <= i < remotes.len(),
    ensures
        i < crate::remote::modified_gadgets_spec(base, Some(modifier)).len(),
        crate::remote::modified_gadgets_spec(base, Some(modifier))[i] == Some(remotes[i]),
{
    crate::remote::law_last_reroute_of_a_gadget_wins(base, Some(modifier), i, i);
}

/// An instance of a cached error model type refers to what it was built for.
pub proof fn law_overrides_restore_the_built_slots(
    base: Seq<RemoteCheckModel>,
    remotes: Seq<RemoteCheckModel>,
    modifier: bin::ErrorModelModifier,
    i: int,
)
    requires
        modifier.reroute_remote_check_models@ == check_model_reroutes(remotes),
        remotes.len() <= u64::MAX,
        0 <= i < remotes.len(),
    ensures
        i < crate::remote::modified_check_models_spec(base, Some(modifier)).len(),
        crate::remote::modified_check_models_spec(base, Some(modifier))[i] == Some(remotes[i]),
{
    crate::remote::law_last_reroute_of_a_check_model_wins(base, Some(modifier), i, i);
}

/// An executed gadget and its check model have one number, the one that was asked for or the
/// next; a type that is new is told under the number that the check model names.
pub proof fn law_execution_is_consistent(before: JitController, request: bin::Gadget, execution: Execution, after: JitController)
    requires
        executed(before, request, execution, after),
    ensures
        execution.gadget.gid == (if request.gid != 0 {
            request.gid
        } else {
            before.compiler.current_gid
        }),
        execution.gadget == (bin::Gadget { gid: execution.gadget.gid, ..request }),
        execution.check_model.gid == execution.gadget.gid,
        execution.check_model.cid == execution.gadget.gid,
        execution.new_type is Some ==> execution.new_type->0.ctype == execution.check_model.ctype
            && execution.new_type->0.gtype == request.gtype && execution.new_type->0.checks@.len()
            == before.compiler.jit_gadget_types@[request.gtype].finished_checks@.len(),
        execution.new_type is Some ==> execution.check_model.ctype == before.next_ctype && after.next_ctype != before.next_ctype,
        execution.new_type is None ==> before.config.cache_enabled && after.next_ctype == before.next_ctype,
{
    let model = choose|model: CheckModelType| #[trigger] executed_as(before, request, model, execution, after);
    if execution.new_type is Some {
        assert(checks_view(execution.new_type->0.checks@).len() == checks_view(model.checks@).len());
    }
}

/// The coordinator is told every gadget type of a library as it is.
pub proof fn law_told_types_are_those_of_the_library(library: JitLibrary, types: bin::Library, i: int, r: int)
    requires
        is_told(library, types),
        0 <= i < library.gadget_types@.len(),
        0 <= r,
    ensures
        types.gadget_types@.len() == library.gadget_types@.len(),
        types.port_types@.len() == library.port_types@.len(),
        ({
            let (told, base) = (types.gadget_types@[i], library.gadget_types@[i].base);
            &&& told.gtype == base.gtype
            &&& told.inputs@ == base.inputs@
            &&& told.outputs@ == base.outputs@
            &&& told.num_measurements == base.num_measurements
            &&& told.is_free_hop == base.is_free_hop
            &&& told.readouts@.len() == base.readouts@.len()
            &&& r < base.readouts@.len() ==> told.readouts@[r].measurement_indices@ == base.readouts@[r].measurement_indices@
        }),
{
    assert(same_gadget_type(library.gadget_types@[i].base, types.gadget_types@[i]));
    if r < library.gadget_types@[i].base.readouts@.len() {
        assert(library.gadget_types@[i].base.readouts@[r].measurement_indices@
            == types.gadget_types@[i].readouts@[r].measurement_indices@);
    }
}

} // verus!
