//! A coordinator that decodes nothing: it hands out ids, and answers with readouts that
//! are all zero or drawn at random.
use crate::bin::{Create, Gadget, GadgetType, Instruction, Library};
use crate::bit_vector::{from_bits, zeros};
use crate::coordinator::{Readouts, ResetRequest};
use crate::program::{assign_id, assigned, has_free_id};
use crate::registry::Registry;
use crate::status::{decimal, Status, StatusCode};
use rand::RngExt;
use vstd::prelude::*;

verus! {

/// How the coordinator is set up.
#[derive(Debug, Clone, Copy, PartialEq, Eq, Structural)]
pub struct NaiveCoordinatorConfig {
    /// answer with zeros; by default readouts are random, so that nobody takes zeros for
    /// the outcome of a decoder
    pub disable_random_readouts: bool,
    /// the first id that is handed out
    pub id_bias: u64,
}

/// The first id that is handed out, unless another is asked for.
pub fn default_id_bias() -> (bias: u64)
    ensures
        bias == 1001,
{
    1001
}

/// `rand::RngExt::random_range` of `rand::rng()` on the range from 0 to 1: the number is
/// in the range. Which one is left to chance.
#[verifier::external_body]
fn random_number() -> (n: u8)
    ensures
        n < 2,
{
    rand::rng().random_range(0..2)
}

/// The coordinator's state.
pub struct NaiveCoordinator {
    pub config: NaiveCoordinatorConfig,
    /// how many readouts gadgets of each type have
    pub gadget_types: Registry<usize>,
    /// how many readouts each gadget has
    pub gadgets: Registry<usize>,
    pub check_models: Registry<()>,
    pub error_models: Registry<()>,
    pub next_gid: u64,
    pub next_cid: u64,
    pub next_eid: u64,
}

/// What executing an instruction comes to.
#[derive(Debug)]
pub enum NaiveAnswer {
    /// the id of the new instance
    Id(u64),
    /// the request is answered with this failure
    Status(Status),
    /// the id that was asked for is in use
    InUse(u64),
}

/// The number of the type at `k` is taken: it was there before, or an earlier type of
/// the library has it.
pub open spec fn number_taken(before: Map<u64, usize>, types: Seq<GadgetType>, k: int) -> bool {
    before.contains_key(types[k].gtype) || exists|j: int| 0 <= j < k && (#[trigger] types[j]).gtype == types[k].gtype
}

/// The numbers of readouts after the first `n` types were loaded.
pub open spec fn readouts_after(before: Map<u64, usize>, types: Seq<GadgetType>, n: int) -> Map<u64, usize>
    decreases n,
{
    if n <= 0 {
        before
    } else {
        readouts_after(before, types, n - 1).insert(types[n - 1].gtype, types[n - 1].readouts.len())
    }
}

/// The numbers that are taken after the first `n` types were loaded.
proof fn lemma_readouts_after(before: Map<u64, usize>, types: Seq<GadgetType>, n: int, gtype: u64)
    requires
        0 <= n <= types.len(),
    ensures
        readouts_after(before, types, n).contains_key(gtype) <==> before.contains_key(gtype) || exists|j: int|
            0 <= j < n && (#[trigger] types[j]).gtype == gtype,
    decreases n,
{
    if n > 0 {
        lemma_readouts_after(before, types, n - 1, gtype);
        if types[n - 1].gtype == gtype {
            assert(types[n - 1].gtype == gtype);
        }
    }
}

impl NaiveCoordinator {
    /// The coordinator's invariant.
    pub open spec fn wf(&self) -> bool {
        &&& self.gadget_types.wf()
        &&& self.gadgets.wf()
        &&& self.check_models.wf()
        &&& self.error_models.wf()
    }

    /// There are no instances, and ids start at the bias.
    pub open spec fn no_program(&self) -> bool {
        &&& self.gadgets@ == Map::<u64, usize>::empty()
        &&& self.check_models@ == Map::<u64, ()>::empty()
        &&& self.error_models@ == Map::<u64, ()>::empty()
        &&& self.next_gid == self.config.id_bias
        &&& self.next_cid == self.config.id_bias
        &&& self.next_eid == self.config.id_bias
    }

    /// A coordinator without types and instances.
    pub fn new(config: NaiveCoordinatorConfig) -> (coordinator: NaiveCoordinator)
        ensures
            coordinator.wf(),
            coordinator.config == config,
            coordinator.gadget_types@ == Map::<u64, usize>::empty(),
            coordinator.no_program(),
    {
        NaiveCoordinator {
            config,
            gadget_types: Registry::new(),
            gadgets: Registry::new(),
            check_models: Registry::new(),
            error_models: Registry::new(),
            next_gid: config.id_bias,
            next_cid: config.id_bias,
            next_eid: config.id_bias,
        }
    }

    /// Two coordinators that differ in their gadget types only.
    pub open spec fn same_but_types(&self, after: NaiveCoordinator) -> bool {
        &&& after.config == self.config
        &&& after.gadgets == self.gadgets
        &&& after.check_models == self.check_models
        &&& after.error_models == self.error_models
        &&& after.next_gid == self.next_gid
        &&& after.next_cid == self.next_cid
        &&& after.next_eid == self.next_eid
    }

    /// Loads the gadget types of a library, up to the first whose number is taken.
    pub fn load_library(&mut self, library: &Library) -> (result: Result<(), Status>)
        requires
            old(self).wf(),
        ensures
            final(self).wf(),
            old(self).same_but_types(*final(self)),
            ({
                let types = library.gadget_types@;
                let before = old(self).gadget_types@;
                match result {
                    Ok(_) => {
                        &&& forall|k: int| 0 <= k < types.len() ==> !#[trigger] number_taken(before, types, k)
                        &&& final(self).gadget_types@ == readouts_after(before, types, types.len() as int)
                    },
                    Err(status) => exists|k: int|
                        {
                            &&& 0 <= k < types.len()
                            &&& #[trigger] number_taken(before, types, k)
                            &&& forall|j: int| 0 <= j < k ==> !#[trigger] number_taken(before, types, j)
                            &&& final(self).gadget_types@ == readouts_after(before, types, k)
                            &&& status.is(StatusCode::AlreadyExists, "gtype="@ + decimal(types[k].gtype as nat))
                        },
                }
            }),
    {
        let ghost before = self.gadget_types@;
        let ghost start = *self;
        let ghost types = library.gadget_types@;
        let mut k: usize = 0;
        while k < library.gadget_types.len()
            invariant
                self.wf(),
                start == *old(self),
                before == start.gadget_types@,
                start.same_but_types(*self),
                types == library.gadget_types@,
                k <= types.len(),
                self.gadget_types@ == readouts_after(before, types, k as int),
                forall|j: int| 0 <= j < k ==> !#[trigger] number_taken(before, types, j),
            decreases types.len() - k,
        {
            let gadget_type = &library.gadget_types[k];
            proof {
                lemma_readouts_after(before, types, k as int, gadget_type.gtype);
            }
            if self.gadget_types.contains_key(gadget_type.gtype) {
                assert(number_taken(before, types, k as int));
                return Err(Status::with_id(StatusCode::AlreadyExists, "gtype=", gadget_type.gtype));
            }
            assert(!number_taken(before, types, k as int));
            self.gadget_types.insert(gadget_type.gtype, gadget_type.readouts.len());
            k += 1;
        }
        Ok(())
    }

    /// There is an id for the instance that an instruction creates.
    pub open spec fn has_id(&self, instruction: Instruction) -> bool {
        match instruction.create {
            None => true,
            Some(Create::Gadget(g)) => g.gid == 0 ==> has_free_id(self.next_gid, self.gadgets@),
            Some(Create::CheckModel(c)) => c.cid == 0 ==> has_free_id(self.next_cid, self.check_models@),
            Some(Create::ErrorModel(e)) => e.eid == 0 ==> has_free_id(self.next_eid, self.error_models@),
        }
    }

    /// A gadget with the id that it was to get.
    pub open spec fn gadget_answered(before: NaiveCoordinator, g: Gadget, gid: u64, answer: NaiveAnswer, after: NaiveCoordinator) -> bool {
        &&& assigned(g.gid, before.next_gid, before.gadgets@, gid, after.next_gid)
        &&& if !before.gadget_types@.contains_key(g.gtype) {
            &&& answer is Status
            &&& answer->Status_0.is(StatusCode::NotFound, "gtype="@ + decimal(g.gtype as nat))
            &&& after.gadgets@ == before.gadgets@
        } else if before.gadgets@.contains_key(gid) {
            answer == NaiveAnswer::InUse(gid) && after.gadgets@ == before.gadgets@
        } else {
            answer == NaiveAnswer::Id(gid) && after.gadgets@ == before.gadgets@.insert(gid, before.gadget_types@[g.gtype])
        }
    }

    /// A model with the id that it was to get.
    pub open spec fn model_answered(
        requested: u64,
        next: u64,
        before: Map<u64, ()>,
        id: u64,
        answer: NaiveAnswer,
        next_after: u64,
        after: Map<u64, ()>,
    ) -> bool {
        &&& assigned(requested, next, before, id, next_after)
        &&& if before.contains_key(id) {
            answer == NaiveAnswer::InUse(id) && after == before
        } else {
            answer == NaiveAnswer::Id(id) && after == before.insert(id, ())
        }
    }

    /// What one instruction changes. An id that was handed out is used up, whether or
    /// not the type of the gadget is known.
    pub open spec fn executed(before: NaiveCoordinator, instruction: Instruction, answer: NaiveAnswer, after: NaiveCoordinator) -> bool {
        &&& after.config == before.config
        &&& after.gadget_types == before.gadget_types
        &&& match instruction.create {
            None => after == before && answer is Status && answer->Status_0.is(
                StatusCode::InvalidArgument,
                "unknown instruction"@,
            ),
            Some(Create::Gadget(g)) => {
                &&& after.check_models == before.check_models
                &&& after.error_models == before.error_models
                &&& after.next_cid == before.next_cid
                &&& after.next_eid == before.next_eid
                &&& exists|gid: u64| #[trigger] Self::gadget_answered(before, g, gid, answer, after)
            },
            Some(Create::CheckModel(c)) => {
                &&& after.gadgets == before.gadgets
                &&& after.error_models == before.error_models
                &&& after.next_gid == before.next_gid
                &&& after.next_eid == before.next_eid
                &&& exists|cid: u64| #[trigger]
                    Self::model_answered(c.cid, before.next_cid, before.check_models@, cid, answer, after.next_cid, after.check_models@)
            },
            Some(Create::ErrorModel(e)) => {
                &&& after.gadgets == before.gadgets
                &&& after.check_models == before.check_models
                &&& after.next_gid == before.next_gid
                &&& after.next_cid == before.next_cid
                &&& exists|eid: u64| #[trigger]
                    Self::model_answered(e.eid, before.next_eid, before.error_models@, eid, answer, after.next_eid, after.error_models@)
            },
        }
    }

    /// Executes an instruction: the instance gets an id.
    pub fn execute(&mut self, instruction: &Instruction) -> (answer: NaiveAnswer)
        requires
            old(self).wf(),
            old(self).has_id(*instruction),
        ensures
            final(self).wf(),
            Self::executed(*old(self), *instruction, answer, *final(self)),
    {
        let ghost before = *self;
        match &instruction.create {
            None => NaiveAnswer::Status(Status::new(StatusCode::InvalidArgument, "unknown instruction")),
            Some(Create::Gadget(gadget)) => {
                let gid: u64 = assign_id(gadget.gid, &mut self.next_gid, &self.gadgets);
                let answer = match self.gadget_types.get(gadget.gtype) {
                    None => NaiveAnswer::Status(Status::with_id(StatusCode::NotFound, "gtype=", gadget.gtype)),
                    Some(count) => if self.gadgets.contains_key(gid) {
                        NaiveAnswer::InUse(gid)
                    } else {
                        self.gadgets.insert(gid, *count);
                        NaiveAnswer::Id(gid)
                    },
                };
                assert(Self::gadget_answered(before, *gadget, gid, answer, *self));
                answer
            },
            Some(Create::CheckModel(check_model)) => {
                let cid: u64 = assign_id(check_model.cid, &mut self.next_cid, &self.check_models);
                let answer = if self.check_models.contains_key(cid) {
                    NaiveAnswer::InUse(cid)
                } else {
                    self.check_models.insert(cid, ());
                    NaiveAnswer::Id(cid)
                };
                assert(Self::model_answered(
                    check_model.cid,
                    before.next_cid,
                    before.check_models@,
                    cid,
                    answer,
                    self.next_cid,
                    self.check_models@,
                ));
                answer
            },
            Some(Create::ErrorModel(error_model)) => {
                let eid: u64 = assign_id(error_model.eid, &mut self.next_eid, &self.error_models);
                let answer = if self.error_models.contains_key(eid) {
                    NaiveAnswer::InUse(eid)
                } else {
                    self.error_models.insert(eid, ());
                    NaiveAnswer::Id(eid)
                };
                assert(Self::model_answered(
                    error_model.eid,
                    before.next_eid,
                    before.error_models@,
                    eid,
                    answer,
                    self.next_eid,
                    self.error_models@,
                ));
                answer
            },
        }
    }

    /// Answers a decode request, once for each gadget: as many readouts as its type has,
    /// all zero if random ones are switched off.
    pub fn decode(&mut self, gid: u64) -> (result: Result<Readouts, Status>)
        requires
            old(self).wf(),
        ensures
            final(self).wf(),
            final(self).config == old(self).config,
            final(self).gadget_types == old(self).gadget_types,
            final(self).gadgets@ == old(self).gadgets@.remove(gid),
            final(self).check_models == old(self).check_models,
            final(self).error_models == old(self).error_models,
            final(self).next_gid == old(self).next_gid,
            final(self).next_cid == old(self).next_cid,
            final(self).next_eid == old(self).next_eid,
            result is Ok == old(self).gadgets@.contains_key(gid),
            match result {
                Ok(r) => {
                    &&& r.gid == gid
                    &&& r.readouts is Some
                    &&& r.readouts->0.wf()
                    &&& r.readouts->0.size == old(self).gadgets@[gid]
                    &&& old(self).config.disable_random_readouts ==> forall|i: int|
                        0 <= i < r.readouts->0.size ==> !#[trigger] r.readouts->0@[i]
                    &&& r.detectors is None
                },
                Err(status) => status.is(StatusCode::NotFound, "gid="@ + decimal(gid as nat)),
            },
    {
        let Some(count) = self.gadgets.remove(gid) else {
            return Err(Status::with_id(StatusCode::NotFound, "gid=", gid));
        };
        let mut bits: Vec<bool> = Vec::new();
        let mut i: usize = 0;
        while i < count
            invariant
                i <= count,
                bits@.len() == i,
                self.config.disable_random_readouts ==> forall|k: int| 0 <= k < i ==> !#[trigger] bits@[k],
            decreases count - i,
        {
            let bit = if self.config.disable_random_readouts {
                false
            } else {
                random_number() == 1
            };
            bits.push(bit);
            i += 1;
        }
        Ok(Readouts { gid, readouts: Some(from_bits(&bits)), detectors: None })
    }

    /// Forgets all instances, and the types if the library is to be reset.
    pub fn reset(&mut self, flags: ResetRequest)
        requires
            old(self).wf(),
        ensures
            final(self).wf(),
            final(self).config == old(self).config,
            final(self).no_program(),
            final(self).gadget_types@ == (if flags.reset_library {
                Map::<u64, usize>::empty()
            } else {
                old(self).gadget_types@
            }),
    {
        if flags.reset_library {
            self.gadget_types = Registry::new();
        }
        self.gadgets = Registry::new();
        self.check_models = Registry::new();
        self.error_models = Registry::new();
        self.next_gid = self.config.id_bias;
        self.next_cid = self.config.id_bias;
        self.next_eid = self.config.id_bias;
    }

    /// The detectors of a gadget: none, as no syndrome is computed.
    pub fn wait_for_detectors(&self, gid: u64) -> (readouts: Readouts)
        ensures
            readouts.gid == gid,
            readouts.readouts is None,
            readouts.detectors is Some,
            readouts.detectors->0.wf(),
            readouts.detectors->0@ == Seq::<bool>::empty(),
    {
        let none = zeros(0);
        assert(none@ =~= Seq::<bool>::empty());
        Readouts { gid, readouts: None, detectors: Some(none) }
    }
}

/// After loading, each loaded gadget type has the number of its readouts, and the types
/// that were there before keep theirs.
pub proof fn law_loaded_types_have_their_readouts(before: Map<u64, usize>, types: Seq<GadgetType>, n: int, k: int, gtype: u64)
    requires
        0 <= k < n <= types.len(),
        forall|j: int| 0 <= j < n ==> !#[trigger] number_taken(before, types, j),
    ensures
        readouts_after(before, types, n).contains_key(types[k].gtype),
        readouts_after(before, types, n)[types[k].gtype] == types[k].readouts@.len(),
        before.contains_key(gtype) ==> readouts_after(before, types, n).contains_key(gtype) && readouts_after(
            before,
            types,
            n,
        )[gtype] == before[gtype],
    decreases n,
{
    reveal_with_fuel(readouts_after, 2);
    assert(!number_taken(before, types, n - 1));
    if n > 1 {
        law_loaded_types_have_their_readouts(
            before,
            types,
            n - 1,
            if k < n - 1 {
                k
            } else {
                0
            },
            gtype,
        );
    }
    if k < n - 1 {
        assert(types[k].gtype != types[n - 1].gtype);
    }
}

/// A new gadget is noted with the number of readouts of its type, under an id that was free;
/// other gadgets stay. An id that is in use changes nothing.
pub proof fn law_new_gadget_is_noted(
    before: NaiveCoordinator,
    g: Gadget,
    instruction: Instruction,
    answer: NaiveAnswer,
    after: NaiveCoordinator,
    id: u64,
)
    requires
        NaiveCoordinator::executed(before, instruction, answer, after),
        instruction.create == Some(Create::Gadget(g)),
    ensures
        answer matches NaiveAnswer::Id(gid) ==> {
            &&& g.gid != 0 ==> gid == g.gid
            &&& !before.gadgets@.contains_key(gid)
            &&& before.gadget_types@.contains_key(g.gtype)
            &&& after.gadgets@.contains_key(gid)
            &&& after.gadgets@[gid] == before.gadget_types@[g.gtype]
            &&& before.gadgets@.contains_key(id) ==> after.gadgets@.contains_key(id) && after.gadgets@[id] == before.gadgets@[id]
        },
        answer matches NaiveAnswer::InUse(gid) ==> before.gadgets@.contains_key(gid) && after.gadgets@ == before.gadgets@,
        answer is Status ==> !before.gadget_types@.contains_key(g.gtype) && after.gadgets@ == before.gadgets@,
{
}

/// A new check model or error model is noted under an id that was free.
pub proof fn law_new_model_is_noted(
    before: NaiveCoordinator,
    instruction: Instruction,
    answer: NaiveAnswer,
    after: NaiveCoordinator,
    id: u64,
)
    requires
        NaiveCoordinator::executed(before, instruction, answer, after),
        answer == NaiveAnswer::Id(id),
    ensures
        instruction.create matches Some(Create::CheckModel(c)) ==> !before.check_models@.contains_key(id)
            && after.check_models@ == before.check_models@.insert(id, ()) && (c.cid != 0 ==> id == c.cid),
        instruction.create matches Some(Create::ErrorModel(e)) ==> !before.error_models@.contains_key(id)
            && after.error_models@ == before.error_models@.insert(id, ()) && (e.eid != 0 ==> id == e.eid),
{
}

} // verus!
