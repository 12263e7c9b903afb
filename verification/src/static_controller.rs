//! The controller of a fixed program: it instantiates the program once, cuts the stream
//! of outcomes into one request for each gadget, and gathers the readouts.
use crate::bin;
use crate::bin::{Connector, Create, GadgetType, Instruction, Library};
use crate::bit_vector::{from_bits, unpack_bits};
use crate::coordinator::{Outcomes, Readouts, ResetRequest};
use crate::status::{Status, StatusCode};
use vstd::prelude::*;

verus! {

/// How the controller is set up.
#[derive(Debug)]
pub struct StaticControllerConfig {
    /// the file that holds the program
    pub filepath: String,
    pub reset_library: bool,
    pub reset_decoder_service: bool,
}

impl StaticControllerConfig {
    /// What the coordinator is to reset: no more than asked for, as the program never
    /// changes.
    pub fn reset_request(&self) -> (request: ResetRequest)
        ensures
            request == (ResetRequest {
                reset_library: self.reset_library,
                reset_decoder_service: self.reset_decoder_service,
            }),
    {
        ResetRequest { reset_library: self.reset_library, reset_decoder_service: self.reset_decoder_service }
    }
}

// ---------------------------------------------------------------------------
// Where the outcomes of each gadget end
// ---------------------------------------------------------------------------

/// The first gadget type with the given number, from `from` on.
pub open spec fn find_type(types: Seq<GadgetType>, gtype: u64, from: int) -> Option<GadgetType>
    decreases types.len() - from,
{
    if from < 0 || from >= types.len() {
        None
    } else if types[from].gtype == gtype {
        Some(types[from])
    } else {
        find_type(types, gtype, from + 1)
    }
}

/// The last number of a list, or 0.
pub open spec fn last_or_zero(list: Seq<int>) -> int {
    if list.len() == 0 {
        0
    } else {
        list.last()
    }
}

/// How many measurements there are up to and with each gadget of the first `n`
/// instructions. None if an instruction creates nothing, or a gadget of no known type.
pub open spec fn accumulated(program: Seq<Instruction>, types: Seq<GadgetType>, n: int) -> Option<Seq<int>>
    decreases n,
{
    if n <= 0 {
        Some(Seq::empty())
    } else {
        match accumulated(program, types, n - 1) {
            None => None,
            Some(before) => match program[n - 1].create {
                None => None,
                Some(Create::Gadget(gadget)) => match find_type(types, gadget.gtype, 0) {
                    Some(gadget_type) => Some(before.push(last_or_zero(before) + gadget_type.num_measurements)),
                    None => None,
                },
                Some(_) => Some(before),
            },
        }
    }
}

/// What does not change while a program runs.
#[derive(Debug)]
pub struct StaticControllerInfo {
    /// how many measurements there are up to and with each gadget
    pub accumulated_measurements: Vec<usize>,
    /// how many measurements there are in all
    pub total_measurements: usize,
}

/// The numbers as mathematical integers.
pub open spec fn as_ints(list: Seq<usize>) -> Seq<int> {
    list.map_values(|x: usize| x as int)
}

/// More instructions have no fewer measurements.
proof fn lemma_accumulated_grows(program: Seq<Instruction>, types: Seq<GadgetType>, a: int, b: int)
    requires
        0 <= a <= b,
    ensures
        accumulated(program, types, a) is None ==> accumulated(program, types, b) is None,
        accumulated(program, types, b) is Some ==> accumulated(program, types, a) is Some && last_or_zero(
            accumulated(program, types, a)->0,
        ) <= last_or_zero(accumulated(program, types, b)->0),
    decreases b - a,
{
    if a < b {
        lemma_accumulated_grows(program, types, a, b - 1);
    }
}

/// The lists never fall.
proof fn lemma_accumulated_sorted(program: Seq<Instruction>, types: Seq<GadgetType>, n: int)
    requires
        0 <= n,
    ensures
        accumulated(program, types, n) is Some ==> {
            let list = accumulated(program, types, n)->0;
            &&& forall|i: int| 0 <= i < list.len() ==> 0 <= #[trigger] list[i] <= last_or_zero(list)
            &&& forall|i: int, j: int| 0 <= i <= j < list.len() ==> #[trigger] list[i] <= #[trigger] list[j]
        },
    decreases n,
{
    if n > 0 {
        lemma_accumulated_sorted(program, types, n - 1);
    }
}

impl StaticControllerInfo {
    /// The ends grow, and the last is the total.
    pub open spec fn wf(&self) -> bool {
        let list = self.accumulated_measurements@;
        &&& forall|i: int, j: int| 0 <= i <= j < list.len() ==> #[trigger] list[i] <= #[trigger] list[j]
        &&& self.total_measurements == (if list.len() == 0 {
            0
        } else {
            list.last()
        })
    }

    /// Where the outcomes of gadget `i` start.
    pub open spec fn start(&self, i: int) -> int {
        if i <= 0 {
            0
        } else {
            self.accumulated_measurements@[i - 1] as int
        }
    }

    /// Where the outcomes of each gadget of a program end. `None` if an instruction
    /// creates nothing, if a gadget has no known type, or if there are more measurements
    /// than memory could hold.
    pub fn new(library: &Library) -> (info: Option<StaticControllerInfo>)
        ensures
            match accumulated(library.program@, library.gadget_types@, library.program@.len() as int) {
                None => info is None,
                Some(list) => if last_or_zero(list) <= usize::MAX {
                    &&& info is Some
                    &&& info->0.wf()
                    &&& as_ints(info->0.accumulated_measurements@) == list
                    &&& info->0.total_measurements == last_or_zero(list)
                } else {
                    info is None
                },
            },
    {
        let ghost program = library.program@;
        let ghost types = library.gadget_types@;
        let mut list: Vec<usize> = Vec::new();
        let mut total: usize = 0;
        let mut n: usize = 0;
        while n < library.program.len()
            invariant
                n <= library.program@.len(),
                program == library.program@,
                types == library.gadget_types@,
                accumulated(program, types, n as int) == Some(as_ints(list@)),
                total == last_or_zero(as_ints(list@)),
            decreases library.program@.len() - n,
        {
            proof {
                lemma_accumulated_grows(program, types, n as int + 1, program.len() as int);
            }
            match &library.program[n].create {
                None => {
                    return None;
                },
                Some(Create::Gadget(gadget)) => {
                    let Some(count) = measurements_of(&library.gadget_types, gadget.gtype) else {
                        return None;
                    };
                    let ghost before = list@;
                    if count > (usize::MAX - total) as u64 {
                        return None;
                    }
                    total += count as usize;
                    list.push(total);
                    assert(as_ints(list@) =~= as_ints(before).push(total as int));
                },
                Some(Create::CheckModel(_)) => {},
                Some(Create::ErrorModel(_)) => {},
            }
            n += 1;
        }
        proof {
            lemma_accumulated_sorted(program, types, program.len() as int);
            let all = as_ints(list@);
            assert forall|i: int, j: int| 0 <= i <= j < list@.len() implies #[trigger] list@[i] <= #[trigger] list@[j] by {
                assert(all[i] <= all[j]);
            }
            if list@.len() > 0 {
                assert(all.last() == list@.last());
            }
        }
        Some(StaticControllerInfo { accumulated_measurements: list, total_measurements: total })
    }
}

/// How many measurements gadgets of a type have.
fn measurements_of(types: &Vec<GadgetType>, gtype: u64) -> (count: Option<u64>)
    ensures
        match find_type(types@, gtype, 0) {
            Some(t) => count == Some(t.num_measurements),
            None => count is None,
        },
{
    let mut i: usize = 0;
    while i < types.len()
        invariant
            i <= types@.len(),
            find_type(types@, gtype, 0) == find_type(types@, gtype, i as int),
        decreases types@.len() - i,
    {
        if types[i].gtype == gtype {
            return Some(types[i].num_measurements);
        }
        i += 1;
    }
    None
}

// ---------------------------------------------------------------------------
// Instantiating the program
// ---------------------------------------------------------------------------

/// The ids that a program's instances got, in order.
#[derive(Debug)]
pub struct Instantiation {
    pub gids: Vec<u64>,
    pub cids: Vec<u64>,
}

/// The id that the instance with the given number got; numbers start at 1.
pub open spec fn instance(ids: Seq<u64>, number: u64) -> Option<u64> {
    if 1 <= number <= ids.len() {
        Some(ids[number - 1])
    } else {
        None
    }
}

/// The id that the instance with the given number got.
fn instance_of(ids: &Vec<u64>, number: u64) -> (id: Option<u64>)
    ensures
        id == instance(ids@, number),
{
    if number >= 1 && number <= ids.len() as u64 {
        Some(ids[(number - 1) as usize])
    } else {
        None
    }
}

/// Every connector names an instance.
pub open spec fn connectors_known(ids: Seq<u64>, connectors: Seq<Connector>) -> bool {
    forall|k: int| 0 <= k < connectors.len() ==> instance(ids, (#[trigger] connectors[k]).gid) is Some
}

/// The connectors, by the ids that the instances got.
pub open spec fn mapped_connectors(ids: Seq<u64>, connectors: Seq<Connector>) -> Seq<Connector> {
    connectors.map_values(|c: Connector| Connector { gid: instance(ids, c.gid)->0, port: c.port })
}

/// An instruction names instances that were created before it.
pub open spec fn instruction_known(gids: Seq<u64>, cids: Seq<u64>, instruction: Instruction) -> bool {
    match instruction.create {
        None => false,
        Some(Create::Gadget(gadget)) => connectors_known(gids, gadget.connectors@),
        Some(Create::CheckModel(check_model)) => instance(gids, check_model.gid) is Some,
        Some(Create::ErrorModel(error_model)) => instance(cids, error_model.cid) is Some,
    }
}

/// An instruction with numbers in place of ids, and what it becomes with ids.
pub open spec fn mapped(gids: Seq<u64>, cids: Seq<u64>, instruction: Instruction, request: Instruction) -> bool {
    match instruction.create {
        None => false,
        Some(Create::Gadget(gadget)) => {
            &&& request.create matches Some(Create::Gadget(g))
            &&& g == (bin::Gadget { connectors: g.connectors, ..gadget })
            &&& g.connectors@ == mapped_connectors(gids, gadget.connectors@)
        },
        Some(Create::CheckModel(check_model)) => request.create == Some(
            Create::CheckModel(bin::CheckModel { gid: instance(gids, check_model.gid)->0, ..check_model }),
        ),
        Some(Create::ErrorModel(error_model)) => request.create == Some(
            Create::ErrorModel(bin::ErrorModel { cid: instance(cids, error_model.cid)->0, ..error_model }),
        ),
    }
}

impl Instantiation {
    /// Nothing was created yet.
    pub fn new() -> (i: Instantiation)
        ensures
            i.gids@ == Seq::<u64>::empty(),
            i.cids@ == Seq::<u64>::empty(),
    {
        Instantiation { gids: Vec::new(), cids: Vec::new() }
    }

    /// The request for an instruction: the instances that it names go by the ids that
    /// they got. `None` if it names one that was not created before it, or creates
    /// nothing.
    pub fn request(&self, instruction: Instruction) -> (request: Option<Instruction>)
        ensures
            request is Some == instruction_known(self.gids@, self.cids@, instruction),
            request matches Some(r) ==> mapped(self.gids@, self.cids@, instruction, r),
    {
        let ghost given = instruction;
        let Some(create) = instruction.create else {
            return None;
        };
        match create {
            Create::Gadget(gadget) => {
                let mut connectors: Vec<Connector> = Vec::new();
                let mut k: usize = 0;
                while k < gadget.connectors.len()
                    invariant
                        given == instruction,
                        given.create == Some(Create::Gadget(gadget)),
                        k <= gadget.connectors@.len(),
                        forall|j: int| 0 <= j < k ==> instance(self.gids@, (#[trigger] gadget.connectors@[j]).gid) is Some,
                        connectors@ =~= mapped_connectors(self.gids@, gadget.connectors@).take(k as int),
                    decreases gadget.connectors@.len() - k,
                {
                    let connector = gadget.connectors[k];
                    let Some(gid) = instance_of(&self.gids, connector.gid) else {
                        assert(instance(self.gids@, gadget.connectors@[k as int].gid) is None);
                        return None;
                    };
                    connectors.push(Connector { gid, port: connector.port });
                    k += 1;
                }
                assert(connectors@ =~= mapped_connectors(self.gids@, gadget.connectors@));
                Some(Instruction { create: Some(Create::Gadget(bin::Gadget { connectors, ..gadget })) })
            },
            Create::CheckModel(check_model) => {
                let Some(gid) = instance_of(&self.gids, check_model.gid) else {
                    return None;
                };
                Some(
                    Instruction {
                        create: Some(
                            Create::CheckModel(
                                bin::CheckModel {
                                    cid: check_model.cid,
                                    ctype: check_model.ctype,
                                    gid,
                                    modifier: check_model.modifier,
                                },
                            ),
                        ),
                    },
                )
            },
            Create::ErrorModel(error_model) => {
                let Some(cid) = instance_of(&self.cids, error_model.cid) else {
                    return None;
                };
                Some(
                    Instruction {
                        create: Some(
                            Create::ErrorModel(
                                bin::ErrorModel {
                                    eid: error_model.eid,
                                    etype: error_model.etype,
                                    cid,
                                    modifier: error_model.modifier,
                                },
                            ),
                        ),
                    },
                )
            },
        }
    }

    /// Notes the id that the instance of an instruction got.
    pub fn created(&mut self, instruction: &Instruction, id: u64)
        ensures
            final(self).gids@ == (match instruction.create {
                Some(Create::Gadget(_)) => old(self).gids@.push(id),
                _ => old(self).gids@,
            }),
            final(self).cids@ == (match instruction.create {
                Some(Create::CheckModel(_)) => old(self).cids@.push(id),
                _ => old(self).cids@,
            }),
    {
        match &instruction.create {
            Some(Create::Gadget(_)) => {
                self.gids.push(id);
            },
            Some(Create::CheckModel(_)) => {
                self.cids.push(id);
            },
            _ => {},
        }
    }
}

/// What an instance was called stays what it is called, whatever is created after it.
pub proof fn law_instances_keep_their_ids(ids: Seq<u64>, number: u64, id: u64)
    requires
        instance(ids, number) is Some,
    ensures
        instance(ids.push(id), number) == instance(ids, number),
{
}

// ---------------------------------------------------------------------------
// The stream of outcomes
// ---------------------------------------------------------------------------

/// What changes while a program runs.
#[derive(Debug)]
pub struct StaticControllerState {
    /// the first gadget that was not sent to the coordinator
    pub next_index: usize,
    /// the id of each gadget
    pub gid_vec: Vec<u64>,
    /// the outcomes of this shot so far
    pub outcomes: Vec<bool>,
    /// which of them were lost, if this is known
    pub loss_mask: Option<Vec<bool>>,
    /// the answers of the gadgets that were sent, as far as they are there
    pub pending_readouts: Vec<Option<Readouts>>,
}

/// Why a part of the stream is not taken.
#[derive(Debug)]
pub enum Rejected {
    /// the request is answered with this
    Status(Status),
    /// the outcomes and the losses differ in number
    LossLength { outcomes: usize, losses: usize },
    /// there are more outcomes than the program has measurements
    TooManyOutcomes,
}

/// What a part of the stream leads to.
#[derive(Debug)]
pub struct Accepted {
    /// what the coordinator is to decode, in order
    pub requests: Vec<Outcomes>,
    /// the position of the first answer
    pub first: usize,
    /// this was the last part of the shot
    pub complete: bool,
}

/// The optional bits.
pub open spec fn mask_view(mask: Option<Vec<bool>>) -> Option<Seq<bool>> {
    match mask {
        Some(m) => Some(m@),
        None => None,
    }
}

/// The losses of a request, if it has any.
pub open spec fn losses_of(request: Outcomes) -> Option<Seq<bool>> {
    match request.loss_mask {
        Some(m) => Some(m@),
        None => None,
    }
}

/// The message for a part that leaves out the losses.
pub open spec fn losses_missing() -> Seq<char> {
    "loss_mask was supplied earlier in this shot; subsequent decode calls of the same shot must also supply it"@
}

/// The message for a part that brings losses where the first part did not.
pub open spec fn losses_unexpected() -> Seq<char> {
    "loss_mask was not supplied in the first decode call of this shot; subsequent calls must not supply it either"@
}

/// The gadgets whose outcomes are there: those before the first whose outcomes end
/// later.
pub open spec fn ready_count(info: StaticControllerInfo, count: int, from: int) -> int
    decreases info.accumulated_measurements@.len() - from,
{
    if 0 <= from < info.accumulated_measurements@.len() && info.accumulated_measurements@[from] <= count {
        ready_count(info, count, from + 1)
    } else {
        from
    }
}

/// What is sent for gadget `i`.
pub open spec fn is_request(info: StaticControllerInfo, gids: Seq<u64>, outcomes: Seq<bool>, losses: Option<Seq<bool>>, i: int, request: Outcomes) -> bool {
    let (start, end) = (info.start(i), info.accumulated_measurements@[i] as int);
    &&& request.gid == gids[i]
    &&& request.outcomes is Some
    &&& request.outcomes->0.wf()
    &&& request.outcomes->0@ == outcomes.subrange(start, end)
    &&& match losses {
        Some(m) => request.loss_mask is Some && request.loss_mask->0.wf() && request.loss_mask->0@ == m.subrange(start, end),
        None => request.loss_mask is None,
    }
}

impl StaticControllerState {
    /// Every gadget has an id; those that were sent have their outcomes, and the losses
    /// are as many as the outcomes.
    pub open spec fn wf(&self, info: &StaticControllerInfo) -> bool {
        &&& self.gid_vec@.len() == info.accumulated_measurements@.len()
        &&& self.next_index <= info.accumulated_measurements@.len()
        &&& self.outcomes@.len() <= info.total_measurements
        &&& self.next_index > 0 ==> info.accumulated_measurements@[self.next_index - 1] <= self.outcomes@.len()
        &&& self.pending_readouts@.len() == self.next_index
        &&& self.loss_mask matches Some(m) ==> m@.len() == self.outcomes@.len()
    }

    /// The start of a shot.
    pub fn restart(gids: Vec<u64>) -> (state: StaticControllerState)
        ensures
            state.next_index == 0,
            state.gid_vec == gids,
            state.outcomes@ == Seq::<bool>::empty(),
            state.loss_mask is None,
            state.pending_readouts@ == Seq::<Option<Readouts>>::empty(),
            forall|info: StaticControllerInfo|
                info.accumulated_measurements@.len() == gids@.len() ==> #[trigger] state.wf(&info),
    {
        StaticControllerState {
            next_index: 0,
            gid_vec: gids,
            outcomes: Vec::new(),
            loss_mask: None,
            pending_readouts: Vec::new(),
        }
    }

    /// The losses of the shot after a part with the given losses: the first part says
    /// whether there are any.
    pub open spec fn losses_after(&self, more: Option<Seq<bool>>) -> Option<Seq<bool>> {
        if self.outcomes@.len() == 0 {
            more
        } else {
            match (mask_view(self.loss_mask), more) {
                (Some(m), Some(l)) => Some(m + l),
                _ => None,
            }
        }
    }

    /// A part agrees with the first part of the shot on whether there are losses.
    pub open spec fn losses_agree(&self, more: Option<Seq<bool>>) -> bool {
        self.outcomes@.len() == 0 || (self.loss_mask is Some == (more is Some))
    }

    /// Takes a part of the stream of outcomes and sends every gadget whose outcomes are
    /// complete. A part that is not taken changes nothing.
    pub fn accept(&mut self, info: &StaticControllerInfo, request: &Outcomes) -> (result: Result<Accepted, Rejected>)
        requires
            info.wf(),
            old(self).wf(info),
            request.outcomes matches Some(bits) ==> bits.wf(),
            request.loss_mask matches Some(bits) ==> bits.wf(),
        ensures
            final(self).wf(info),
            match result {
                Err(rejected) => *final(self) == *old(self) && match rejected {
                    Rejected::Status(status) => {
                        ||| request.outcomes is None && status.is(StatusCode::InvalidArgument, "Outcomes.outcomes is required"@)
                        ||| {
                            &&& request.outcomes is Some
                            &&& !old(self).losses_agree(losses_of(*request))
                            &&& request.loss_mask matches Some(m) ==> m@.len() == request.outcomes->0@.len()
                            &&& status.is(
                                StatusCode::InvalidArgument,
                                if request.loss_mask is None {
                                    losses_missing()
                                } else {
                                    losses_unexpected()
                                },
                            )
                        }
                    },
                    Rejected::LossLength { outcomes, losses } => {
                        &&& request.outcomes is Some
                        &&& request.loss_mask is Some
                        &&& outcomes == request.outcomes->0@.len()
                        &&& losses == request.loss_mask->0@.len()
                        &&& outcomes != losses
                    },
                    Rejected::TooManyOutcomes => {
                        &&& request.outcomes is Some
                        &&& old(self).losses_agree(losses_of(*request))
                        &&& request.loss_mask matches Some(m) ==> m@.len() == request.outcomes->0@.len()
                        &&& old(self).outcomes@.len() + request.outcomes->0@.len() > info.total_measurements
                    },
                },
                Ok(accepted) => {
                    let count = final(self).next_index - old(self).next_index;
                    &&& request.outcomes is Some
                    &&& request.loss_mask matches Some(m) ==> m@.len() == request.outcomes->0@.len()
                    &&& old(self).losses_agree(losses_of(*request))
                    &&& final(self).gid_vec == old(self).gid_vec
                    &&& final(self).outcomes@ == old(self).outcomes@ + request.outcomes->0@
                    &&& mask_view(final(self).loss_mask) == old(self).losses_after(losses_of(*request))
                    &&& final(self).next_index == ready_count(*info, final(self).outcomes@.len() as int, old(self).next_index as int)
                    &&& final(self).pending_readouts@ == old(self).pending_readouts@ + Seq::new(
                        count as nat,
                        |i: int| None::<Readouts>,
                    )
                    &&& accepted.first == old(self).next_index
                    &&& accepted.complete == (final(self).outcomes@.len() == info.total_measurements)
                    &&& accepted.requests@.len() == count
                    &&& forall|k: int|
                        0 <= k < count ==> is_request(
                            *info,
                            final(self).gid_vec@,
                            final(self).outcomes@,
                            mask_view(final(self).loss_mask),
                            old(self).next_index + k,
                            #[trigger] accepted.requests@[k],
                        )
                },
            },
    {
        let Some(bits) = &request.outcomes else {
            return Err(Rejected::Status(Status::new(StatusCode::InvalidArgument, "Outcomes.outcomes is required")));
        };
        let mut more = unpack_bits(&bits.data, bits.size);
        let ghost all = more@;
        let first_call = self.outcomes.len() == 0;
        let losses: Option<Vec<bool>> = match &request.loss_mask {
            Some(mask) => {
                let losses = unpack_bits(&mask.data, mask.size);
                if losses.len() != more.len() {
                    return Err(Rejected::LossLength { outcomes: more.len(), losses: losses.len() });
                }
                Some(losses)
            },
            None => None,
        };
        assert(mask_view(losses) == losses_of(*request));
        if !first_call {
            if self.loss_mask.is_some() && losses.is_none() {
                return Err(
                    Rejected::Status(
                        Status::new(
                            StatusCode::InvalidArgument,
                            "loss_mask was supplied earlier in this shot; subsequent decode calls of the same shot must also supply it",
                        ),
                    ),
                );
            }
            if self.loss_mask.is_none() && losses.is_some() {
                return Err(
                    Rejected::Status(
                        Status::new(
                            StatusCode::InvalidArgument,
                            "loss_mask was not supplied in the first decode call of this shot; subsequent calls must not supply it either",
                        ),
                    ),
                );
            }
        }
        if more.len() > info.total_measurements - self.outcomes.len() {
            return Err(Rejected::TooManyOutcomes);
        }
        let ghost before = *self;
        if first_call {
            self.loss_mask = losses;
        } else if let Some(mut new) = losses {
            let mut mask: Option<Vec<bool>> = None;
            std::mem::swap(&mut mask, &mut self.loss_mask);
            let mut mask = mask.unwrap();
            mask.append(&mut new);
            self.loss_mask = Some(mask);
        }
        self.outcomes.append(&mut more);
        proof {
            assert(self.outcomes@ =~= before.outcomes@ + all);
            assert(mask_view(self.loss_mask) =~= before.losses_after(losses_of(*request)));
        }
        let first: usize = self.next_index;
        let complete = self.outcomes.len() == info.total_measurements;
        let mut requests: Vec<Outcomes> = Vec::new();
        let ghost target = ready_count(*info, self.outcomes@.len() as int, first as int);
        while self.next_index < info.accumulated_measurements.len() && info.accumulated_measurements[self.next_index] <= self.outcomes.len()
            invariant
                info.wf(),
                self.wf(info),
                first <= self.next_index,
                self.gid_vec == before.gid_vec,
                self.outcomes@ == before.outcomes@ + all,
                mask_view(self.loss_mask) == before.losses_after(losses_of(*request)),
                target == ready_count(*info, self.outcomes@.len() as int, self.next_index as int),
                requests@.len() == self.next_index - first,
                first == before.next_index,
                before.pending_readouts@.len() == first,
                self.pending_readouts@ =~= before.pending_readouts@ + Seq::new(
                    (self.next_index - first) as nat,
                    |i: int| None::<Readouts>,
                ),
                forall|k: int|
                    0 <= k < requests@.len() ==> is_request(
                        *info,
                        self.gid_vec@,
                        self.outcomes@,
                        mask_view(self.loss_mask),
                        first + k,
                        #[trigger] requests@[k],
                    ),
            decreases info.accumulated_measurements@.len() - self.next_index,
        {
            let i: usize = self.next_index;
            let start: usize = if i == 0 {
                0
            } else {
                info.accumulated_measurements[i - 1]
            };
            let end: usize = info.accumulated_measurements[i];
            let slice = slice_of(&self.outcomes, start, end);
            let loss_mask = match &self.loss_mask {
                Some(mask) => Some(from_bits(&slice_of(mask, start, end))),
                None => None,
            };
            requests.push(Outcomes { gid: self.gid_vec[i], outcomes: Some(from_bits(&slice)), loss_mask });
            self.pending_readouts.push(None);
            self.next_index = i + 1;
        }
        Ok(Accepted { requests, first, complete })
    }

    /// Notes the answer of a gadget that was sent.
    pub fn record(&mut self, index: usize, readouts: Readouts)
        requires
            index < old(self).pending_readouts@.len(),
        ensures
            final(self).pending_readouts@ == old(self).pending_readouts@.update(index as int, Some(readouts)),
            final(self).next_index == old(self).next_index,
            final(self).gid_vec == old(self).gid_vec,
            final(self).outcomes == old(self).outcomes,
            final(self).loss_mask == old(self).loss_mask,
            forall|info: StaticControllerInfo| old(self).wf(&info) ==> #[trigger] final(self).wf(&info),
    {
        self.pending_readouts.set(index, Some(readouts));
    }

    /// The readouts of the shot, gadget by gadget. Fails at the first gadget whose answer
    /// is missing or has no readouts.
    pub fn gather(&self) -> (result: Result<Readouts, Status>)
        requires
            forall|i: int|
                0 <= i < self.pending_readouts@.len() && (#[trigger] self.pending_readouts@[i]) is Some
                    && self.pending_readouts@[i]->0.readouts is Some ==> self.pending_readouts@[i]->0.readouts->0.wf(),
        ensures
            match result {
                Ok(r) => {
                    &&& forall|i: int| 0 <= i < self.pending_readouts@.len() ==> answered(#[trigger] self.pending_readouts@[i])
                    &&& r.gid == 0
                    &&& r.readouts is Some
                    &&& r.readouts->0.wf()
                    &&& r.readouts->0@ == gathered(self.pending_readouts@, self.pending_readouts@.len() as int)
                    &&& r.detectors is None
                },
                Err(status) => exists|i: int|
                    {
                        &&& 0 <= i < self.pending_readouts@.len()
                        &&& !answered(#[trigger] self.pending_readouts@[i])
                        &&& forall|j: int| 0 <= j < i ==> answered(#[trigger] self.pending_readouts@[j])
                        &&& status.is(
                            StatusCode::Internal,
                            if self.pending_readouts@[i] is None {
                                "missing readouts"@
                            } else {
                                "empty bit vector in readouts"@
                            },
                        )
                    },
            },
    {
        let ghost list = self.pending_readouts@;
        let mut bits: Vec<bool> = Vec::new();
        let mut i: usize = 0;
        while i < self.pending_readouts.len()
            invariant
                list == self.pending_readouts@,
                i <= list.len(),
                forall|k: int|
                    0 <= k < list.len() && (#[trigger] list[k]) is Some && list[k]->0.readouts is Some ==> list[k]->0.readouts->0.wf(),
                forall|j: int| 0 <= j < i ==> answered(#[trigger] list[j]),
                bits@ == gathered(list, i as int),
            decreases list.len() - i,
        {
            match &self.pending_readouts[i] {
                None => {
                    assert(!answered(list[i as int]));
                    return Err(Status::new(StatusCode::Internal, "missing readouts"));
                },
                Some(readouts) => match &readouts.readouts {
                    None => {
                        assert(!answered(list[i as int]));
                        return Err(Status::new(StatusCode::Internal, "empty bit vector in readouts"));
                    },
                    Some(own) => {
                        let mut more = unpack_bits(&own.data, own.size);
                        let ghost before = bits@;
                        let ghost added = more@;
                        bits.append(&mut more);
                        assert(bits@ =~= before + added);
                    },
                },
            }
            i += 1;
        }
        Ok(Readouts { gid: 0, readouts: Some(from_bits(&bits)), detectors: None })
    }
}

/// An answer has readouts.
pub open spec fn answered(readouts: Option<Readouts>) -> bool {
    readouts is Some && readouts->0.readouts is Some
}

/// The readouts of the first `n` gadgets.
pub open spec fn gathered(list: Seq<Option<Readouts>>, n: int) -> Seq<bool>
    decreases n,
{
    if n <= 0 {
        Seq::empty()
    } else {
        gathered(list, n - 1) + list[n - 1]->0.readouts->0@
    }
}

/// Part of a list of bits.
fn slice_of(bits: &Vec<bool>, start: usize, end: usize) -> (slice: Vec<bool>)
    requires
        start <= end <= bits@.len(),
    ensures
        slice@ == bits@.subrange(start as int, end as int),
{
    let mut slice: Vec<bool> = Vec::new();
    let mut i: usize = start;
    while i < end
        invariant
            start <= i <= end <= bits@.len(),
            slice@ =~= bits@.subrange(start as int, i as int),
        decreases end - i,
    {
        slice.push(bits[i]);
        i += 1;
    }
    slice
}

/// The answer to a part of the stream that does not end the shot.
pub fn partial_readouts() -> (readouts: Readouts)
    ensures
        readouts.gid == 0,
        readouts.readouts is Some,
        readouts.readouts->0.wf(),
        readouts.readouts->0@ == Seq::<bool>::empty(),
        readouts.detectors is None,
{
    let none: Vec<bool> = Vec::new();
    Readouts { gid: 0, readouts: Some(from_bits(&none)), detectors: None }
}

/// Every gadget before `from` stays sent, and sending goes on where it stopped: a shot
/// that comes in two parts sends the same gadgets as one that comes in one.
pub proof fn law_parts_send_the_same(info: StaticControllerInfo, first: int, all: int, from: int)
    requires
        info.wf(),
        0 <= first <= all,
        0 <= from <= info.accumulated_measurements@.len(),
    ensures
        ready_count(info, all, ready_count(info, first, from)) == ready_count(info, all, from),
    decreases info.accumulated_measurements@.len() - from,
{
    if from < info.accumulated_measurements@.len() && info.accumulated_measurements@[from] <= first {
        law_parts_send_the_same(info, first, all, from + 1);
    }
}

/// More of the stream leaves what was sent for a gadget as it was.
pub proof fn law_sent_outcomes_stand(
    info: StaticControllerInfo,
    gids: Seq<u64>,
    outcomes: Seq<bool>,
    losses: Option<Seq<bool>>,
    more: Seq<bool>,
    more_losses: Seq<bool>,
    i: int,
    request: Outcomes,
)
    requires
        info.wf(),
        0 <= i < info.accumulated_measurements@.len(),
        info.accumulated_measurements@[i] <= outcomes.len(),
        losses matches Some(m) ==> m.len() == outcomes.len(),
        is_request(info, gids, outcomes, losses, i, request),
    ensures
        is_request(
            info,
            gids,
            outcomes + more,
            match losses {
                Some(m) => Some(m + more_losses),
                None => None,
            },
            i,
            request,
        ),
{
    let (start, end) = (info.start(i), info.accumulated_measurements@[i] as int);
    if i > 0 {
        assert(info.accumulated_measurements@[i - 1] <= info.accumulated_measurements@[i]);
    }
    assert((outcomes + more).subrange(start, end) =~= outcomes.subrange(start, end));
    if let Some(m) = losses {
        assert((m + more_losses).subrange(start, end) =~= m.subrange(start, end));
    }
}

/// When the whole shot is there, every gadget was sent.
pub proof fn law_complete_shot_sends_all(info: StaticControllerInfo, from: int)
    requires
        info.wf(),
        0 <= from <= info.accumulated_measurements@.len(),
    ensures
        ready_count(info, info.total_measurements as int, from) == info.accumulated_measurements@.len(),
    decreases info.accumulated_measurements@.len() - from,
{
    if from < info.accumulated_measurements@.len() {
        assert(info.accumulated_measurements@[from] <= info.accumulated_measurements@[info.accumulated_measurements@.len() - 1]);
        law_complete_shot_sends_all(info, from + 1);
    }
}

/// The type of a gadget is the first one of its number.
pub proof fn law_first_type_of_a_number_counts(types: Seq<GadgetType>, gtype: u64)
    ensures
        find_type(types, gtype, 0) is Some ==> exists|i: int|
            0 <= i < types.len() && find_type(types, gtype, 0) == Some(#[trigger] types[i]) && types[i].gtype == gtype
                && forall|j: int| 0 <= j < i ==> (#[trigger] types[j]).gtype != gtype,
        find_type(types, gtype, 0) is None ==> forall|j: int| 0 <= j < types.len() ==> (#[trigger] types[j]).gtype != gtype,
{
    lemma_type_found(types, gtype, 0);
}

proof fn lemma_type_found(types: Seq<GadgetType>, gtype: u64, from: int)
    requires
        0 <= from <= types.len(),
    ensures
        find_type(types, gtype, from) is Some ==> exists|i: int|
            from <= i < types.len() && find_type(types, gtype, from) == Some(#[trigger] types[i]) && types[i].gtype == gtype
                && forall|j: int| from <= j < i ==> (#[trigger] types[j]).gtype != gtype,
        find_type(types, gtype, from) is None ==> forall|j: int|
            from <= j < types.len() ==> (#[trigger] types[j]).gtype != gtype,
    decreases types.len() - from,
{
    if from < types.len() && types[from].gtype != gtype {
        lemma_type_found(types, gtype, from + 1);
        if find_type(types, gtype, from) is Some {
            let i = choose|i: int|
                from + 1 <= i < types.len() && find_type(types, gtype, from + 1) == Some(#[trigger] types[i]) && types[i].gtype
                    == gtype && forall|j: int| from + 1 <= j < i ==> (#[trigger] types[j]).gtype != gtype;
            assert(find_type(types, gtype, from) == Some(types[i]));
        }
    } else if from < types.len() {
        assert(find_type(types, gtype, from) == Some(types[from]));
    }
}

/// The outcomes of the gadgets of a program follow each other: each gadget has as many as
/// its type measures, behind those of the gadgets before it.
pub proof fn law_outcomes_follow_the_program(program: Seq<Instruction>, types: Seq<GadgetType>, n: int, i: int)
    requires
        0 <= n <= program.len(),
        accumulated(program, types, n) is Some,
        0 <= i < accumulated(program, types, n)->0.len(),
    ensures
        ({
            let ends = accumulated(program, types, n)->0;
            let gadgets = program.take(n).filter(|x: Instruction| x.create matches Some(Create::Gadget(_)));
            &&& ends.len() == gadgets.len()
            &&& gadgets[i].create matches Some(Create::Gadget(g)) && find_type(types, g.gtype, 0) matches Some(t) && ends[i] == (
            if i == 0 {
                0
            } else {
                ends[i - 1]
            }) + t.num_measurements
        }),
    decreases n,
{
    lemma_ends_listed(program, types, n, i);
}

proof fn lemma_ends_listed(program: Seq<Instruction>, types: Seq<GadgetType>, n: int, i: int)
    requires
        0 <= n <= program.len(),
        accumulated(program, types, n) is Some,
    ensures
        ({
            let ends = accumulated(program, types, n)->0;
            let gadgets = program.take(n).filter(|x: Instruction| x.create matches Some(Create::Gadget(_)));
            &&& ends.len() == gadgets.len()
            &&& 0 <= i < ends.len() ==> (gadgets[i].create matches Some(Create::Gadget(g)) && find_type(
                types,
                g.gtype,
                0,
            ) matches Some(t) && ends[i] == (if i == 0 {
                0
            } else {
                ends[i - 1]
            }) + t.num_measurements)
        }),
    decreases n,
{
    reveal(Seq::filter);
    if n > 0 {
        lemma_ends_listed(program, types, n - 1, i);
        assert(program.take(n).drop_last() =~= program.take(n - 1));
        assert(program.take(n).last() == program[n - 1]);
    } else {
        assert(program.take(n) =~= Seq::<Instruction>::empty());
    }
}

/// Exactly the gadgets whose outcomes have all arrived are sent.
pub proof fn law_complete_gadgets_are_sent(info: StaticControllerInfo, count: int, from: int)
    requires
        info.wf(),
        0 <= from <= info.accumulated_measurements@.len(),
    ensures
        from <= ready_count(info, count, from) <= info.accumulated_measurements@.len(),
        forall|i: int|
            from <= i < info.accumulated_measurements@.len() ==> (i < ready_count(info, count, from) <==> (
            #[trigger] info.accumulated_measurements@[i]) <= count),
    decreases info.accumulated_measurements@.len() - from,
{
    if from < info.accumulated_measurements@.len() {
        if info.accumulated_measurements@[from] <= count {
            law_complete_gadgets_are_sent(info, count, from + 1);
        } else {
            assert forall|i: int| from <= i < info.accumulated_measurements@.len() implies (
            #[trigger] info.accumulated_measurements@[i]) > count by {
                assert(info.accumulated_measurements@[from] <= info.accumulated_measurements@[i]);
            }
        }
    }
}

/// The outcomes that are sent are the stream of the shot, cut at the gadgets: put together
/// they are the stream again.
pub proof fn law_sent_outcomes_are_the_stream(
    info: StaticControllerInfo,
    gids: Seq<u64>,
    outcomes: Seq<bool>,
    losses: Option<Seq<bool>>,
    requests: Seq<Outcomes>,
    n: int,
)
    requires
        info.wf(),
        0 <= n <= requests.len(),
        n <= info.accumulated_measurements@.len(),
        n > 0 ==> info.accumulated_measurements@[n - 1] <= outcomes.len(),
        losses matches Some(m) ==> m.len() == outcomes.len(),
        forall|i: int| 0 <= i < n ==> is_request(info, gids, outcomes, losses, i, #[trigger] requests[i]),
    ensures
        forall|i: int| 0 <= i < n ==> (#[trigger] requests[i]).gid == gids[i],
        requests.take(n).map_values(|r: Outcomes| r.outcomes->0@).flatten() == outcomes.take(info.start(n)),
        losses matches Some(m) ==> requests.take(n).map_values(|r: Outcomes| r.loss_mask->0@).flatten() == m.take(
            info.start(n),
        ),
    decreases n,
{
    let bits = |r: Outcomes| r.outcomes->0@;
    let lost = |r: Outcomes| r.loss_mask->0@;
    if n > 0 {
        if n > 1 {
            assert(info.accumulated_measurements@[n - 2] <= info.accumulated_measurements@[n - 1]);
        }
        law_sent_outcomes_are_the_stream(info, gids, outcomes, losses, requests, n - 1);
        let r = requests[n - 1];
        assert(is_request(info, gids, outcomes, losses, n - 1, r));
        requests.take(n - 1).map_values(bits).lemma_flatten_push(bits(r));
        assert(requests.take(n).map_values(bits) =~= requests.take(n - 1).map_values(bits).push(bits(r)));
        assert(outcomes.take(info.start(n)) =~= outcomes.take(info.start(n - 1)) + outcomes.subrange(
            info.start(n - 1),
            info.start(n),
        ));
        if let Some(m) = losses {
            requests.take(n - 1).map_values(lost).lemma_flatten_push(lost(r));
            assert(requests.take(n).map_values(lost) =~= requests.take(n - 1).map_values(lost).push(lost(r)));
            assert(m.take(info.start(n)) =~= m.take(info.start(n - 1)) + m.subrange(info.start(n - 1), info.start(n)));
        }
    } else {
        assert(requests.take(n).map_values(bits) =~= Seq::<Seq<bool>>::empty());
        assert(requests.take(n).map_values(lost) =~= Seq::<Seq<bool>>::empty());
        assert(outcomes.take(0) =~= Seq::<bool>::empty());
        if let Some(m) = losses {
            assert(m.take(0) =~= Seq::<bool>::empty());
        }
    }
}

/// The readouts of a shot are those of its gadgets, one after the other.
pub proof fn law_readouts_of_all_gadgets_are_joined(list: Seq<Option<Readouts>>, n: int)
    requires
        0 <= n <= list.len(),
    ensures
        gathered(list, n) == list.take(n).map_values(|r: Option<Readouts>| r->0.readouts->0@).flatten(),
    decreases n,
{
    let bits = |r: Option<Readouts>| r->0.readouts->0@;
    if n > 0 {
        law_readouts_of_all_gadgets_are_joined(list, n - 1);
        list.take(n - 1).map_values(bits).lemma_flatten_push(bits(list[n - 1]));
        assert(list.take(n).map_values(bits) =~= list.take(n - 1).map_values(bits).push(bits(list[n - 1])));
    } else {
        assert(list.take(n).map_values(bits) =~= Seq::<Seq<bool>>::empty());
    }
}

/// An instruction is sent with the ids that the instances got: ids in a program are the
/// numbers of instances, counted from one; nothing else is changed.
pub proof fn law_sent_instruction_names_the_instances(gids: Seq<u64>, cids: Seq<u64>, instruction: Instruction, request: Instruction, k: int)
    requires
        instruction_known(gids, cids, instruction),
        mapped(gids, cids, instruction, request),
        0 <= k,
    ensures
        match instruction.create {
            None => false,
            Some(Create::Gadget(gadget)) => request.create matches Some(Create::Gadget(sent)) && {
                &&& sent.connectors@.len() == gadget.connectors@.len()
                &&& sent.gid == gadget.gid && sent.gtype == gadget.gtype
                &&& k < gadget.connectors@.len() ==> {
                    &&& 1 <= gadget.connectors@[k].gid <= gids.len()
                    &&& sent.connectors@[k].gid == gids[gadget.connectors@[k].gid - 1]
                    &&& sent.connectors@[k].port == gadget.connectors@[k].port
                }
            },
            Some(Create::CheckModel(check_model)) => request.create matches Some(Create::CheckModel(sent)) && {
                &&& 1 <= check_model.gid <= gids.len()
                &&& sent.gid == gids[check_model.gid - 1]
                &&& sent.cid == check_model.cid && sent.ctype == check_model.ctype && sent.modifier == check_model.modifier
            },
            Some(Create::ErrorModel(error_model)) => request.create matches Some(Create::ErrorModel(sent)) && {
                &&& 1 <= error_model.cid <= cids.len()
                &&& sent.cid == cids[error_model.cid - 1]
                &&& sent.eid == error_model.eid && sent.etype == error_model.etype && sent.modifier == error_model.modifier
            },
        },
{
    if let Some(Create::Gadget(gadget)) = instruction.create {
        if k < gadget.connectors@.len() {
            assert(instance(gids, gadget.connectors@[k].gid) is Some);
        }
    }
}

/// The losses of a shot are those of its parts, one after the other; the first part says
/// whether there are any, and the others must agree.
pub proof fn law_losses_of_the_parts_are_joined(state: StaticControllerState, more: Option<Seq<bool>>)
    requires
        state.losses_agree(more),
    ensures
        state.outcomes@.len() == 0 ==> state.losses_after(more) == more,
        state.outcomes@.len() > 0 ==> (state.loss_mask is Some <==> more is Some),
        state.outcomes@.len() > 0 && more is Some ==> state.losses_after(more) == Some(state.loss_mask->0@ + more->0),
        state.outcomes@.len() > 0 && more is None ==> state.losses_after(more) is None,
{
}

} // verus!
