//! Window decoding: the state of a window coordinator, and how instructions extend it.
use crate::bin;
use crate::bin::{Create, Instruction, Library, WILDCARD};
use crate::dem::effective_errors;
use crate::dem_log::{DemLog, DemState};
use crate::library::{load_answered, Types};
use crate::monolithic::{
    bound, check_model_reroutes_fit, default_true, gadget_reroutes_fit, is_new_check_model, is_new_error_model, recordable, recorded,
};
use crate::network::{CheckModel, ErrorModel, Gadget};
use crate::program::{add_gadget, assign_id, assigned, connectable, gadget_added, has_free_id};
use crate::referrals::{
    all_same_but_referring, by_gid_view, law_registered_slot_is_looked_after, logged, references_valid, referring_of,
    same_but_referring, ReferralState, Referrals,
};
use crate::registry::Registry;
use crate::remote::{
    check_model_slots, modified_check_models_spec, modified_remote_check_models, modified_remote_gadgets, referral_of,
    referrals_valid, Referral,
};
use crate::status::{decimal, labelled_pair, Status, StatusCode};
use vstd::prelude::*;

verus! {

/// The default hop distance from a window's boundary.
pub fn default_buffer_radius() -> (radius: usize)
    ensures
        radius == 1,
{
    1
}

/// The options of a window coordinator.
#[derive(Debug)]
pub struct WindowCoordinatorConfig {
    /// whether every parity factor is checked against the syndrome
    pub assert_parity_factor: bool,
    /// whether mechanisms with the same syndrome are merged
    pub merge_hyperedges: bool,
    /// whether a decoder stays loaded and is used again
    pub persistent_decoder: bool,
    /// the least hop distance from every window boundary at which a gadget is committed
    pub buffer_radius: usize,
    /// how many hops beyond the buffer are explored without waiting; the buffer radius by
    /// default
    pub lookahead_radius: Option<usize>,
    /// where a trace of all events is written
    pub trace_filepath: Option<String>,
    /// whether lost outcomes are replaced by random bits
    pub loss_random_imputation: bool,
    /// the seed of the random bits
    pub loss_random_imputation_seed: Option<u64>,
}

impl Default for WindowCoordinatorConfig {
    fn default() -> (config: Self)
        ensures
            config == (WindowCoordinatorConfig {
                assert_parity_factor: false,
                merge_hyperedges: true,
                persistent_decoder: true,
                buffer_radius: 1,
                lookahead_radius: None,
                trace_filepath: None,
                loss_random_imputation: true,
                loss_random_imputation_seed: None,
            }),
    {
        WindowCoordinatorConfig {
            assert_parity_factor: false,
            merge_hyperedges: default_true(),
            persistent_decoder: default_true(),
            buffer_radius: default_buffer_radius(),
            lookahead_radius: None,
            trace_filepath: None,
            loss_random_imputation: default_true(),
            loss_random_imputation_seed: None,
        }
    }
}

impl WindowCoordinatorConfig {
    /// How many hops beyond the buffer are explored.
    pub open spec fn lookahead(&self) -> usize {
        if self.buffer_radius == 0 {
            0
        } else {
            match self.lookahead_radius {
                Some(radius) => radius,
                None => self.buffer_radius,
            }
        }
    }

    /// How many hops beyond the buffer are explored: the buffer radius unless given, and
    /// none if there is no buffer.
    pub fn lookahead_radius(&self) -> (radius: usize)
        ensures
            radius == self.lookahead(),
    {
        if self.buffer_radius == 0 {
            return 0;
        }
        match self.lookahead_radius {
            Some(radius) => radius,
            None => self.buffer_radius,
        }
    }

    /// How many hops around its center a window explores.
    pub fn effective_window_radius(&self) -> (radius: usize)
        requires
            self.buffer_radius + self.lookahead() <= usize::MAX,
        ensures
            radius == self.buffer_radius + self.lookahead(),
    {
        self.buffer_radius + self.lookahead_radius()
    }
}

/// The state of a window coordinator.
pub struct WindowCoordinator {
    pub config: WindowCoordinatorConfig,
    pub types: Types,
    pub gadgets: Registry<Gadget>,
    pub check_models: Registry<CheckModel>,
    pub error_models: Registry<ErrorModel>,
    /// references of error models that are not resolved yet
    pub referrals: Referrals,
    /// the next ids to try
    pub next_gid: u64,
    pub next_cid: u64,
    pub next_eid: u64,
    pub dem_log: DemLog,
}

/// The check models after error model `eid` was attached to check model `cid`, up to
/// the error models that they know to refer to them.
pub open spec fn attached_but_referring(
    before: Map<u64, CheckModel>,
    after: Map<u64, CheckModel>,
    cid: u64,
    eid: u64,
) -> bool {
    &&& after.dom() == before.dom()
    &&& after[cid].attaching_eid_vec@ == before[cid].attaching_eid_vec@.push(eid)
    &&& same_but_referring(CheckModel { attaching_eid_vec: after[cid].attaching_eid_vec, ..before[cid] }, after[cid])
    &&& forall|c: u64| #[trigger] before.contains_key(c) && c != cid ==> same_but_referring(before[c], after[c])
}

impl WindowCoordinator {
    /// The tables are in order, every gadget has a known type, every reference that waits
    /// names a slot, and no id counter gives out 0.
    pub open spec fn wf(&self) -> bool {
        &&& self.types.wf()
        &&& self.gadgets.wf()
        &&& self.check_models.wf()
        &&& self.error_models.wf()
        &&& self.referrals.wf()
        &&& self.dem_log.wf()
        &&& self.next_gid >= 1
        &&& self.next_cid >= 1
        &&& self.next_eid >= 1
        &&& references_valid(self.referrals.by_port@)
        &&& forall|gid: u64| #[trigger]
            self.gadgets@.contains_key(gid) ==> self.types@.gadget_types.contains_key(self.gadgets@[gid].instance.gtype)
    }

    /// What is known of the references of error models.
    pub open spec fn referral_state(&self) -> ReferralState {
        self.referrals.state(&self.check_models, &self.dem_log)
    }

    /// The program is as before, apart from the id counters.
    pub open spec fn same_program(before: Self, after: Self) -> bool {
        &&& after.gadgets@ == before.gadgets@
        &&& after.check_models@ == before.check_models@
        &&& after.error_models@ == before.error_models@
        &&& after.referral_state() == before.referral_state()
    }

    /// No program runs, and nothing was recorded of one.
    pub open spec fn is_empty(&self) -> bool {
        &&& self.gadgets@ == Map::<u64, Gadget>::empty()
        &&& self.check_models@ == Map::<u64, CheckModel>::empty()
        &&& self.error_models@ == Map::<u64, ErrorModel>::empty()
        &&& self.referrals.is_empty()
        &&& self.next_gid == 1
        &&& self.next_cid == 1
        &&& self.next_eid == 1
        &&& self.dem_log@ == DemState::none(self.dem_log@.enabled)
    }

    /// A coordinator with no types and no program; nothing is recorded.
    pub fn new(config: WindowCoordinatorConfig) -> (c: WindowCoordinator)
        ensures
            c.wf(),
            c.config == config,
            c.types@ == Types::none(),
            c.is_empty(),
            !c.dem_log@.enabled,
    {
        let mut dem_log = DemLog::new();
        dem_log.set_enabled(false);
        WindowCoordinator {
            config,
            types: Types::new(),
            gadgets: Registry::new(),
            check_models: Registry::new(),
            error_models: Registry::new(),
            referrals: Referrals::new(),
            next_gid: 1,
            next_cid: 1,
            next_eid: 1,
            dem_log,
        }
    }

    /// Loads the types of a library.
    pub fn load_library(&mut self, library: Library) -> (answer: Result<(), Status>)
        requires
            old(self).wf(),
        ensures
            final(self).wf(),
            load_answered(old(self).types@, library, final(self).types@, answer),
            Self::same_program(*old(self), *final(self)),
            final(self).config == old(self).config,
            final(self).next_gid == old(self).next_gid,
            final(self).next_cid == old(self).next_cid,
            final(self).next_eid == old(self).next_eid,
    {
        let ghost before = *self;
        let ghost items = library;
        let answer = self.types.load_library(library);
        proof {
            assert forall|gid: u64| #[trigger] self.gadgets@.contains_key(gid) implies self.types@.gadget_types.contains_key(
                self.gadgets@[gid].instance.gtype,
            ) by {
                assert(before.gadgets@.contains_key(gid));
                crate::library::lemma_loading_keeps_gadget_types(
                    before.types@,
                    items,
                    self.types@,
                    answer,
                    self.gadgets@[gid].instance.gtype,
                );
            }
        }
        answer
    }

    // -----------------------------------------------------------------------
    // Gadgets
    // -----------------------------------------------------------------------

    /// What a request for a gadget makes of the program, and how it is answered. What
    /// waited for the outputs that the gadget is connected to is followed again.
    pub open spec fn gadget_created(before: Self, after: Self, request: bin::Gadget, answer: Result<u64, Status>) -> bool {
        &&& after.types@ == before.types@
        &&& after.config == before.config
        &&& after.next_cid == before.next_cid
        &&& after.next_eid == before.next_eid
        &&& if before.types@.gadget_types.contains_key(request.gtype) {
            &&& answer matches Ok(gid)
            &&& assigned(request.gid, before.next_gid, before.gadgets@, gid, after.next_gid)
            &&& gadget_added(
                before.gadgets@,
                after.gadgets@,
                gid,
                request,
                before.types@.gadget_types[request.gtype],
            )
            &&& after.referral_state() == before.referral_state().ports_connected(
                after.gadgets@,
                request.connectors@,
                request.connectors@.len() as int,
            )
            &&& all_same_but_referring(before.check_models@, after.check_models@)
            &&& after.error_models@ == before.error_models@
        } else {
            &&& answer matches Err(status)
            &&& status.is(StatusCode::NotFound, "gtype="@ + decimal(request.gtype as nat))
            &&& exists|gid: u64| #[trigger]
                assigned(request.gid, before.next_gid, before.gadgets@, gid, after.next_gid)
            &&& Self::same_program(before, after)
        }
    }

    /// A request for a gadget is well formed: there is an id for it, and its inputs fit
    /// its type and are connected to open outputs.
    pub open spec fn gadget_request_valid(&self, request: bin::Gadget) -> bool {
        &&& request.gid == 0 ==> has_free_id(self.next_gid, self.gadgets@)
        &&& self.types@.gadget_types.contains_key(request.gtype) ==> {
            &&& request.connectors@.len() == self.types@.gadget_types[request.gtype].inputs@.len()
            &&& connectable(self.gadgets@, request.connectors@)
        }
    }

    /// Creates a gadget.
    pub fn create_gadget(&mut self, request: bin::Gadget) -> (answer: Result<u64, Status>)
        requires
            old(self).wf(),
            old(self).gadget_request_valid(request),
        ensures
            final(self).wf(),
            Self::gadget_created(*old(self), *final(self), request, answer),
    {
        let ghost before = *self;
        let gid: u64 = assign_id(request.gid, &mut self.next_gid, &self.gadgets);
        let Some(gadget_type) = self.types.gadget_types.get(request.gtype) else {
            return Err(Status::with_id(StatusCode::NotFound, "gtype=", request.gtype));
        };
        let connectors = bin::copy_vec(&request.connectors);
        add_gadget(&mut self.gadgets, gid, request, gadget_type);
        self.referrals.connect_ports(&mut self.check_models, &mut self.dem_log, &self.gadgets, &connectors);
        proof {
            assert forall|g: u64| #[trigger] self.gadgets@.contains_key(g) implies self.types@.gadget_types.contains_key(
                self.gadgets@[g].instance.gtype,
            ) by {
                assert(self.gadgets@.dom().contains(g));
                if g != gid {
                    assert(before.gadgets@.contains_key(g));
                }
            }
        }
        Ok(gid)
    }

    // -----------------------------------------------------------------------
    // Check models
    // -----------------------------------------------------------------------

    /// What a request for a check model makes of the program, and how it is answered. What
    /// waited for the gadget to get a check model refers to it now.
    pub open spec fn check_model_created(
        before: Self,
        after: Self,
        request: bin::CheckModel,
        answer: Result<u64, Status>,
    ) -> bool {
        &&& after.types@ == before.types@
        &&& after.config == before.config
        &&& after.next_gid == before.next_gid
        &&& after.next_eid == before.next_eid
        &&& exists|cid: u64|
            {
                &&& #[trigger] assigned(request.cid, before.next_cid, before.check_models@, cid, after.next_cid)
                &&& if !before.types@.check_model_types.contains_key(request.ctype) {
                    &&& answer matches Err(status)
                    &&& status.is(StatusCode::NotFound, "ctype="@ + decimal(request.ctype as nat))
                    &&& Self::same_program(before, after)
                } else if !before.gadgets@.contains_key(request.gid) {
                    &&& answer matches Err(status)
                    &&& status.is(
                        StatusCode::InvalidArgument,
                        "cid="@ + decimal(cid as nat) + " binding to unknown gid="@ + decimal(request.gid as nat),
                    )
                    &&& Self::same_program(before, after)
                } else {
                    let check_model_type = before.types@.check_model_types[request.ctype];
                    let waiting = by_gid_view(before.referrals.by_gid@)[request.gid];
                    &&& answer == Ok::<u64, Status>(cid)
                    &&& bound(before.gadgets@, after.gadgets@, request.gid, cid)
                    &&& after.check_models@ == before.check_models@.insert(cid, after.check_models@[cid])
                    &&& is_new_check_model(
                        after.check_models@[cid],
                        cid,
                        request,
                        check_model_type,
                        waiting.map_values(|w: (u64, usize)| w.0),
                    )
                    &&& after.dem_log@ == logged(
                        before.dem_log@.after_check_model(request.gid, cid, check_model_type.checks@.len() as u64),
                        waiting,
                        cid,
                        waiting.len() as int,
                    )
                    &&& by_gid_view(after.referrals.by_gid@) == by_gid_view(before.referrals.by_gid@).insert(
                        request.gid,
                        Seq::empty(),
                    )
                    &&& after.referrals.by_port@ == before.referrals.by_port@
                    &&& after.error_models@ == before.error_models@
                }
            }
    }

    /// A request for a check model is well formed: there is an id for it, its type fits
    /// the gadget, and the gadget has no check model yet.
    pub open spec fn check_model_request_valid(&self, request: bin::CheckModel) -> bool {
        &&& request.cid == 0 ==> has_free_id(self.next_cid, self.check_models@)
        &&& gadget_reroutes_fit(request)
        &&& self.types@.check_model_types.contains_key(request.ctype) && self.gadgets@.contains_key(request.gid) ==> {
            let gtype = self.types@.check_model_types[request.ctype].gtype;
            &&& gtype == WILDCARD || gtype == self.gadgets@[request.gid].instance.gtype
            &&& self.gadgets@[request.gid].binding_cid is None
        }
    }

    /// Creates a check model.
    pub fn create_check_model(&mut self, request: bin::CheckModel) -> (answer: Result<u64, Status>)
        requires
            old(self).wf(),
            old(self).check_model_request_valid(request),
        ensures
            final(self).wf(),
            Self::check_model_created(*old(self), *final(self), request, answer),
    {
        let ghost before = *self;
        let cid: u64 = assign_id(request.cid, &mut self.next_cid, &self.check_models);
        let Some(check_model_type) = self.types.check_model_types.get(request.ctype) else {
            return Err(Status::with_id(StatusCode::NotFound, "ctype=", request.ctype));
        };
        if !self.gadgets.contains_key(request.gid) {
            return Err(
                Status {
                    code: StatusCode::InvalidArgument,
                    message: labelled_pair("cid=", cid, " binding to unknown gid=", request.gid),
                },
            );
        }
        let modified_remote = modified_remote_gadgets(&check_model_type.remote_gadgets, &request.modifier);
        let count: u64 = check_model_type.checks.len() as u64;
        self.gadgets.get_mut(request.gid).binding_cid = Some(cid);
        proof {
            assert(self.gadgets@.dom() =~= before.gadgets@.dom());
            assert(bound(before.gadgets@, self.gadgets@, request.gid, cid));
        }
        self.dem_log.on_check_model(request.gid, cid, count);
        let referring_eids = self.referrals.bind_gadget(&mut self.dem_log, request.gid, cid);
        self.check_models.insert(
            cid,
            CheckModel {
                instance: bin::CheckModel { cid, ..request },
                attaching_eid_vec: Vec::new(),
                modified_remote_gadgets: modified_remote,
                expanded_remote_gadgets: None,
                syndrome: None,
                referring_eids,
            },
        );
        proof {
            assert forall|g: u64| #[trigger] self.gadgets@.contains_key(g) implies self.types@.gadget_types.contains_key(
                self.gadgets@[g].instance.gtype,
            ) by {
                assert(before.gadgets@.contains_key(g));
            }
            assert(assigned(request.cid, before.next_cid, before.check_models@, cid, self.next_cid));
        }
        Ok(cid)
    }

    // -----------------------------------------------------------------------
    // Error models
    // -----------------------------------------------------------------------

    /// What a request for an error model makes of the program, and how it is answered.
    /// Each slot is resolved as far as it can be now; the others wait.
    pub open spec fn error_model_created(
        before: Self,
        after: Self,
        request: bin::ErrorModel,
        answer: Result<u64, Status>,
    ) -> bool {
        &&& after.types@ == before.types@
        &&& after.config == before.config
        &&& after.next_gid == before.next_gid
        &&& after.next_cid == before.next_cid
        &&& after.gadgets@ == before.gadgets@
        &&& if !before.types@.error_model_types.contains_key(request.etype) {
            &&& answer matches Err(status)
            &&& status.is(StatusCode::NotFound, "etype="@ + decimal(request.etype as nat))
            &&& after.next_eid == before.next_eid
            &&& Self::same_program(before, after)
        } else {
            exists|eid: u64|
                {
                    &&& #[trigger] assigned(request.eid, before.next_eid, before.error_models@, eid, after.next_eid)
                    &&& if !before.check_models@.contains_key(request.cid) {
                        &&& answer matches Err(status)
                        &&& status.is(
                            StatusCode::InvalidArgument,
                            "eid="@ + decimal(eid as nat) + " attaching to unknown cid="@ + decimal(request.cid as nat),
                        )
                        &&& Self::same_program(before, after)
                    } else {
                        let error_model_type = before.types@.error_model_types[request.etype];
                        let owner_gid = before.check_models@[request.cid].instance.gid;
                        let slots = modified_check_models_spec(error_model_type.remote_check_models@, request.modifier);
                        &&& answer == Ok::<u64, Status>(eid)
                        &&& attached_but_referring(before.check_models@, after.check_models@, request.cid, eid)
                        &&& after.error_models@ == before.error_models@.insert(eid, after.error_models@[eid])
                        &&& is_new_error_model(after.error_models@[eid], eid, request, error_model_type)
                        &&& after.referral_state() == (ReferralState {
                            log: recorded(before.dem_log@, owner_gid, eid, request, error_model_type),
                            ..before.referral_state()
                        }).slots_registered(
                            before.gadgets@,
                            eid,
                            owner_gid,
                            slots,
                            request.cid,
                            slots.len() as int,
                        )
                    }
                }
        }
    }

    /// A request for an error model is well formed: there is an id for it, its type fits
    /// the check model, its references are valid, and its mechanisms can be recorded if
    /// they are to be.
    pub open spec fn error_model_request_valid(&self, request: bin::ErrorModel) -> bool {
        &&& request.eid == 0 ==> has_free_id(self.next_eid, self.error_models@)
        &&& check_model_reroutes_fit(request)
        &&& self.types@.error_model_types.contains_key(request.etype) && self.check_models@.contains_key(request.cid) ==> {
            let error_model_type = self.types@.error_model_types[request.etype];
            let owner_gid = self.check_models@[request.cid].instance.gid;
            &&& error_model_type.ctype == WILDCARD || error_model_type.ctype == self.check_models@[request.cid].instance.ctype
            &&& referrals_valid(
                self.gadgets@,
                check_model_slots(modified_check_models_spec(error_model_type.remote_check_models@, request.modifier)),
                owner_gid,
            )
            &&& self.dem_log@.enabled ==> forall|eid: u64| #[trigger] recordable(owner_gid, eid, request, error_model_type)
        }
    }

    /// Creates an error model.
    pub fn create_error_model(&mut self, request: bin::ErrorModel) -> (answer: Result<u64, Status>)
        requires
            old(self).wf(),
            old(self).error_model_request_valid(request),
        ensures
            final(self).wf(),
            Self::error_model_created(*old(self), *final(self), request, answer),
    {
        let ghost before = *self;
        let Some(error_model_type) = self.types.error_model_types.get(request.etype) else {
            return Err(Status::with_id(StatusCode::NotFound, "etype=", request.etype));
        };
        let modified_remote = modified_remote_check_models(&error_model_type.remote_check_models, &request.modifier);
        let eid: u64 = assign_id(request.eid, &mut self.next_eid, &self.error_models);
        if !self.check_models.contains_key(request.cid) {
            return Err(
                Status {
                    code: StatusCode::InvalidArgument,
                    message: labelled_pair("eid=", eid, " attaching to unknown cid=", request.cid),
                },
            );
        }
        let owner_gid: u64 = self.check_models.get(request.cid).unwrap().instance.gid;
        if self.dem_log.is_enabled() {
            assert(recordable(owner_gid, eid, request, *error_model_type));
            let errors = effective_errors(error_model_type, &request);
            self.dem_log.on_error_model(owner_gid, eid, request.cid, errors, &modified_remote);
        }
        self.check_models.get_mut(request.cid).attaching_eid_vec.push(eid);
        let ghost attached = self.check_models@;
        proof {
            assert(attached.dom() =~= before.check_models@.dom());
            assert(referring_of(attached) =~= referring_of(before.check_models@));
            assert(self.referral_state() =~= (ReferralState {
                log: recorded(before.dem_log@, owner_gid, eid, request, *error_model_type),
                ..before.referral_state()
            }));
        }
        self.referrals.register_slots(
            &mut self.check_models,
            &mut self.dem_log,
            &self.gadgets,
            eid,
            owner_gid,
            &modified_remote,
            request.cid,
        );
        proof {
            assert(attached.contains_key(request.cid));
            assert(attached_but_referring(before.check_models@, self.check_models@, request.cid, eid)) by {
                assert forall|c: u64| #[trigger] before.check_models@.contains_key(c) && c != request.cid implies same_but_referring(
                    before.check_models@[c],
                    self.check_models@[c],
                ) by {
                    assert(attached.contains_key(c));
                }
            }
        }
        self.error_models.insert(
            eid,
            ErrorModel {
                instance: bin::ErrorModel { eid, ..request },
                modified_remote_check_models: modified_remote,
                expanded_remote_check_models: None,
            },
        );
        assert(assigned(request.eid, before.next_eid, before.error_models@, eid, self.next_eid));
        Ok(eid)
    }

    // -----------------------------------------------------------------------
    // Instructions
    // -----------------------------------------------------------------------

    /// An instruction is well formed.
    pub open spec fn instruction_valid(&self, instruction: Instruction) -> bool {
        match instruction.create {
            Some(Create::Gadget(request)) => self.gadget_request_valid(request),
            Some(Create::CheckModel(request)) => self.check_model_request_valid(request),
            Some(Create::ErrorModel(request)) => self.error_model_request_valid(request),
            None => true,
        }
    }

    /// What an instruction makes of the program, and how it is answered.
    pub open spec fn executed(before: Self, after: Self, instruction: Instruction, answer: Result<u64, Status>) -> bool {
        match instruction.create {
            Some(Create::Gadget(request)) => Self::gadget_created(before, after, request, answer),
            Some(Create::CheckModel(request)) => Self::check_model_created(before, after, request, answer),
            Some(Create::ErrorModel(request)) => Self::error_model_created(before, after, request, answer),
            None => {
                &&& answer matches Err(status)
                &&& status.is(StatusCode::InvalidArgument, "unknown instruction"@)
                &&& after == before
            },
        }
    }

    /// Executes an instruction; the answer is the id of the new instance.
    pub fn execute(&mut self, instruction: Instruction) -> (answer: Result<u64, Status>)
        requires
            old(self).wf(),
            old(self).instruction_valid(instruction),
        ensures
            final(self).wf(),
            Self::executed(*old(self), *final(self), instruction, answer),
    {
        match instruction.create {
            Some(Create::Gadget(request)) => self.create_gadget(request),
            Some(Create::CheckModel(request)) => self.create_check_model(request),
            Some(Create::ErrorModel(request)) => self.create_error_model(request),
            None => Err(Status::new(StatusCode::InvalidArgument, "unknown instruction")),
        }
    }
}

/// A created check model is bound to its gadget, and the error models that waited for the
/// gadget to get one refer to it from then on.
pub proof fn law_waiting_error_models_refer_to_the_check_model(
    before: WindowCoordinator,
    after: WindowCoordinator,
    request: bin::CheckModel,
    answer: Result<u64, Status>,
    cid: u64,
    eid: u64,
    ri: usize,
)
    requires
        WindowCoordinator::check_model_created(before, after, request, answer),
        answer == Ok::<u64, Status>(cid),
    ensures
        before.gadgets@.contains_key(request.gid),
        request.cid != 0 ==> cid == request.cid,
        after.gadgets@[request.gid].binding_cid == Some(cid),
        after.gadgets@[request.gid].outputs == before.gadgets@[request.gid].outputs,
        after.check_models@[cid].instance == (bin::CheckModel { cid, ..request }),
        after.check_models@[cid].attaching_eid_vec@.len() == 0,
        by_gid_view(before.referrals.by_gid@)[request.gid].contains((eid, ri))
            ==> after.check_models@[cid].referring_eids@.contains(eid),
        by_gid_view(after.referrals.by_gid@)[request.gid].len() == 0,
{
    let waiting = by_gid_view(before.referrals.by_gid@)[request.gid];
    if waiting.contains((eid, ri)) {
        let k = waiting.index_of((eid, ri));
        assert(after.check_models@[cid].referring_eids@[k] == eid);
    }
}

/// A created error model is attached to its check model, and every slot of it is looked
/// after: the check model that the slot leads to knows the error model, or the error model
/// waits for the gadget there to get a check model.
pub proof fn law_created_error_model_is_known_where_it_refers(
    before: WindowCoordinator,
    after: WindowCoordinator,
    request: bin::ErrorModel,
    answer: Result<u64, Status>,
    eid: u64,
    ri: int,
    target: u64,
)
    requires
        WindowCoordinator::error_model_created(before, after, request, answer),
        answer == Ok::<u64, Status>(eid),
        ({
            let slots = after.error_models@[eid].modified_remote_check_models@;
            let owner = before.check_models@[request.cid].instance.gid;
            &&& 0 <= ri < slots.len() <= usize::MAX
            &&& slots[ri] is Some
            &&& slots[ri]->0.absolute_cid is None
            &&& referral_of(before.gadgets@, check_model_slots(slots), owner, ri) == Referral::At(target)
            &&& target != owner
            &&& before.gadgets@.contains_key(target)
        }),
    ensures
        before.check_models@.contains_key(request.cid),
        after.check_models@[request.cid].attaching_eid_vec@ == before.check_models@[request.cid].attaching_eid_vec@.push(eid),
        after.error_models@[eid].instance == (bin::ErrorModel { eid, ..request }),
        after.gadgets@ == before.gadgets@,
        before.gadgets@[target].binding_cid matches Some(to) ==> (before.check_models@.contains_key(to)
            ==> after.check_models@[to].referring_eids@.contains(eid)),
        before.gadgets@[target].binding_cid is None ==> by_gid_view(after.referrals.by_gid@)[target].contains(
            (eid, ri as usize),
        ),
{
    let slots = after.error_models@[eid].modified_remote_check_models@;
    let owner = before.check_models@[request.cid].instance.gid;
    let error_model_type = before.types@.error_model_types[request.etype];
    let start = ReferralState {
        log: recorded(before.dem_log@, owner, eid, request, error_model_type),
        ..before.referral_state()
    };
    law_registered_slot_is_looked_after(start, before.gadgets@, eid, owner, slots, request.cid, slots.len() as int, ri);
    let done = start.slots_registered(before.gadgets@, eid, owner, slots, request.cid, slots.len() as int);
    assert(after.referral_state() == done);
    if let Some(to) = before.gadgets@[target].binding_cid {
        if before.check_models@.contains_key(to) {
            assert(start.referring.contains_key(to));
            assert(done.referring.dom().contains(to));
            assert(after.check_models@.contains_key(to));
            assert(done.referring[to] == after.check_models@[to].referring_eids@);
        }
    }
}

/// Without a buffer nothing is looked ahead; with one the lookahead is the radius that was
/// set for it, or else the buffer.
pub proof fn law_lookahead_needs_a_buffer(config: WindowCoordinatorConfig)
    ensures
        config.buffer_radius == 0 ==> config.lookahead() == 0,
        config.buffer_radius > 0 && config.lookahead_radius is Some ==> config.lookahead() == config.lookahead_radius->0,
        config.buffer_radius > 0 && config.lookahead_radius is None ==> config.lookahead() == config.buffer_radius,
{
}

} // verus!
