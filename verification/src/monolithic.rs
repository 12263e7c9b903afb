//! Monolithic decoding: a connected part of the program is decoded once every output
//! in it is connected and every outcome is loaded.
use crate::bin;
use crate::bin::{CheckModelType, Connector, Create, ErrorModelType, Instruction, Library, WILDCARD};
use crate::bin::errors_view;
use crate::bit_vector::parity;
use crate::collections::IdMap;
use crate::dem::{effective_errors, effective_errors_spec, modifier_fits};
use crate::dem_log::{registered, DemLog, DemState};
use crate::library::{load_answered, Types};
use crate::network::{CheckModel, ErrorModel, Gadget};
use crate::program::{
    add_gadget, assign_id, assigned, connectable, gadget_added, has_free_id, same_but_outputs,
};
use crate::registry::Registry;
use crate::remote::{
    modified_check_models_spec, modified_gadgets_spec, modified_remote_check_models, modified_remote_gadgets,
};
use crate::status::{decimal, labelled_pair, Status, StatusCode};
use crate::union_find::{minus, plus, Clusters, MonolithicUnionNode, UnionFind};
use vstd::prelude::*;

verus! {

/// The default of the options that are on by default.
pub fn default_true() -> (value: bool)
    ensures
        value,
{
    true
}

/// The options of a monolithic coordinator.
#[derive(Debug, Clone, Copy, PartialEq, Eq, Structural)]
pub struct MonolithicCoordinatorConfig {
    /// whether every parity factor is checked against the syndrome
    pub assert_parity_factor: bool,
    /// whether mechanisms with the same syndrome are merged
    pub merge_hyperedges: bool,
    /// whether remote references are expanded as soon as they can be, not only when
    /// decoding starts
    pub async_expand: bool,
    /// whether a decoder stays loaded and is used again
    pub persistent_decoder: bool,
    /// whether lost outcomes are replaced by random bits
    pub loss_random_imputation: bool,
    /// the seed of the random bits
    pub loss_random_imputation_seed: Option<u64>,
}

impl Default for MonolithicCoordinatorConfig {
    fn default() -> (config: Self)
        ensures
            config == (MonolithicCoordinatorConfig {
                assert_parity_factor: false,
                merge_hyperedges: true,
                async_expand: true,
                persistent_decoder: true,
                loss_random_imputation: true,
                loss_random_imputation_seed: None,
            }),
    {
        MonolithicCoordinatorConfig {
            assert_parity_factor: false,
            merge_hyperedges: default_true(),
            async_expand: default_true(),
            persistent_decoder: default_true(),
            loss_random_imputation: default_true(),
            loss_random_imputation_seed: None,
        }
    }
}

/// The state of a monolithic coordinator.
pub struct MonolithicCoordinator {
    pub config: MonolithicCoordinatorConfig,
    pub types: Types,
    pub gadgets: Registry<Gadget>,
    pub check_models: Registry<CheckModel>,
    pub error_models: Registry<ErrorModel>,
    /// the next ids to try
    pub next_gid: u64,
    pub next_cid: u64,
    pub next_eid: u64,
    /// the connected parts of the program
    pub pending_subgraphs: UnionFind,
    /// the node of each gadget
    pub gid_to_union_index: IdMap,
    pub dem_log: DemLog,
}

// ---------------------------------------------------------------------------
// Instances
// ---------------------------------------------------------------------------

/// A check model that was just created.
pub open spec fn is_new_check_model(
    check_model: CheckModel,
    cid: u64,
    request: bin::CheckModel,
    check_model_type: CheckModelType,
    referring: Seq<u64>,
) -> bool {
    &&& check_model.instance == (bin::CheckModel { cid, ..request })
    &&& check_model.attaching_eid_vec@ == Seq::<u64>::empty()
    &&& check_model.modified_remote_gadgets@ == modified_gadgets_spec(check_model_type.remote_gadgets@, request.modifier)
    &&& check_model.expanded_remote_gadgets is None
    &&& check_model.syndrome is None
    &&& check_model.referring_eids@ == referring
}

/// An error model that was just created.
pub open spec fn is_new_error_model(
    error_model: ErrorModel,
    eid: u64,
    request: bin::ErrorModel,
    error_model_type: ErrorModelType,
) -> bool {
    &&& error_model.instance == (bin::ErrorModel { eid, ..request })
    &&& error_model.modified_remote_check_models@ == modified_check_models_spec(
        error_model_type.remote_check_models@,
        request.modifier,
    )
    &&& error_model.expanded_remote_check_models is None
}

/// Two gadgets that differ in their check model only.
pub open spec fn same_but_binding(a: Gadget, b: Gadget) -> bool {
    &&& same_but_outputs(Gadget { binding_cid: b.binding_cid, ..a }, b)
    &&& a.outputs == b.outputs
}

/// Two check models that differ in the attached error models only.
pub open spec fn same_but_attaching(a: CheckModel, b: CheckModel) -> bool {
    &&& a.instance == b.instance
    &&& a.modified_remote_gadgets == b.modified_remote_gadgets
    &&& a.expanded_remote_gadgets == b.expanded_remote_gadgets
    &&& a.syndrome == b.syndrome
    &&& a.referring_eids == b.referring_eids
}

/// The gadgets after check model `cid` was bound to gadget `gid`.
pub open spec fn bound(before: Map<u64, Gadget>, after: Map<u64, Gadget>, gid: u64, cid: u64) -> bool {
    &&& after.dom() == before.dom()
    &&& after[gid].binding_cid == Some(cid)
    &&& same_but_binding(before[gid], after[gid])
    &&& forall|g: u64| #[trigger] before.contains_key(g) && g != gid ==> after[g] == before[g]
}

/// The check models after error model `eid` was attached to check model `cid`.
pub open spec fn attached(before: Map<u64, CheckModel>, after: Map<u64, CheckModel>, cid: u64, eid: u64) -> bool {
    &&& after.dom() == before.dom()
    &&& after[cid].attaching_eid_vec@ == before[cid].attaching_eid_vec@.push(eid)
    &&& same_but_attaching(before[cid], after[cid])
    &&& forall|c: u64| #[trigger] before.contains_key(c) && c != cid ==> after[c] == before[c]
}

/// The overrides of a check model name slots that a list can have.
pub open spec fn gadget_reroutes_fit(request: bin::CheckModel) -> bool {
    request.modifier matches Some(m) ==> forall|i: int|
        0 <= i < m.reroute_remote_gadgets@.len() ==> (#[trigger] m.reroute_remote_gadgets@[i]).remote_gadget_index
            < usize::MAX
}

/// The overrides of an error model name slots that a list can have.
pub open spec fn check_model_reroutes_fit(request: bin::ErrorModel) -> bool {
    request.modifier matches Some(m) ==> forall|i: int|
        0 <= i < m.reroute_remote_check_models@.len() ==> (#[trigger] m.reroute_remote_check_models@[i]).remote_check_model_index
            < usize::MAX
}

/// The mechanisms of an error model can be recorded.
pub open spec fn recordable(gid: u64, eid: u64, request: bin::ErrorModel, error_model_type: ErrorModelType) -> bool {
    &&& modifier_fits(error_model_type.errors@.len(), request)
    &&& registered(
        gid,
        eid,
        request.cid,
        effective_errors_spec(errors_view(error_model_type.errors@), request),
        modified_check_models_spec(error_model_type.remote_check_models@, request.modifier),
    ).indices_fit()
}

/// The log after an error model was created.
pub open spec fn recorded(log: DemState, gid: u64, eid: u64, request: bin::ErrorModel, error_model_type: ErrorModelType) -> DemState {
    log.after_error_model(
        registered(
            gid,
            eid,
            request.cid,
            effective_errors_spec(errors_view(error_model_type.errors@), request),
            modified_check_models_spec(error_model_type.remote_check_models@, request.modifier),
        ),
    )
}

// ---------------------------------------------------------------------------
// Clusters
// ---------------------------------------------------------------------------

/// The cluster of node `i` joined with those of the first `n` peers.
pub open spec fn joined(clusters: Clusters, i: int, index: Map<u64, usize>, connectors: Seq<Connector>, n: int) -> Clusters
    decreases n,
{
    if n <= 0 {
        clusters
    } else {
        joined(clusters, i, index, connectors, n - 1).united(i, index[connectors[n - 1].gid] as int)
    }
}

/// The counts of a cluster with a new gadget in it.
pub open spec fn with_new_gadget(node: MonolithicUnionNode, outputs: nat, inputs: nat) -> MonolithicUnionNode {
    MonolithicUnionNode {
        num_unloaded_gadgets: plus(node.num_unloaded_gadgets, 1),
        num_unconnected_outputs: minus(plus(node.num_unconnected_outputs, outputs as usize), inputs as usize),
        ..node
    }
}

/// A node with nothing counted.
pub open spec fn empty_node() -> MonolithicUnionNode {
    MonolithicUnionNode { set_size: 1, num_unloaded_gadgets: 0, num_unconnected_outputs: 0 }
}

/// The clusters after a gadget was created; `index` already knows its node.
pub open spec fn clusters_with(before: Clusters, index: Map<u64, usize>, connectors: Seq<Connector>, outputs: nat) -> Clusters {
    let i = before.label.len() as int;
    let all = joined(before.inserted(empty_node()), i, index, connectors, connectors.len() as int);
    all.with_node(i, with_new_gadget(all.node(i), outputs, connectors.len()))
}

/// Joining clusters keeps the nodes.
pub proof fn lemma_joined(clusters: Clusters, i: int, index: Map<u64, usize>, connectors: Seq<Connector>, n: int)
    ensures
        joined(clusters, i, index, connectors, n).label.len() == clusters.label.len(),
    decreases n,
{
    if n > 0 {
        lemma_joined(clusters, i, index, connectors, n - 1);
    }
}

// ---------------------------------------------------------------------------
// The coordinator
// ---------------------------------------------------------------------------

impl MonolithicCoordinator {
    /// The tables are in order, every gadget has a known type, and a node, and no id
    /// counter gives out 0.
    pub open spec fn wf(&self) -> bool {
        &&& self.types.wf()
        &&& self.gadgets.wf()
        &&& self.check_models.wf()
        &&& self.error_models.wf()
        &&& self.pending_subgraphs.wf()
        &&& self.dem_log.wf()
        &&& self.next_gid >= 1
        &&& self.next_cid >= 1
        &&& self.next_eid >= 1
        &&& forall|gid: u64| #[trigger]
            self.gadgets@.contains_key(gid) ==> self.gid_to_union_index@.contains_key(gid)
                && self.gid_to_union_index@[gid] < self.pending_subgraphs@.label.len()
        &&& forall|gid: u64| #[trigger]
            self.gadgets@.contains_key(gid) ==> self.types@.gadget_types.contains_key(self.gadgets@[gid].instance.gtype)
    }

    /// The program is as before, apart from the id counters.
    pub open spec fn same_program(before: Self, after: Self) -> bool {
        &&& after.gadgets@ == before.gadgets@
        &&& after.check_models@ == before.check_models@
        &&& after.error_models@ == before.error_models@
        &&& after.pending_subgraphs@ == before.pending_subgraphs@
        &&& after.gid_to_union_index@ == before.gid_to_union_index@
        &&& after.dem_log@ == before.dem_log@
    }

    /// A coordinator with no types and no program; nothing is recorded.
    pub fn new(config: MonolithicCoordinatorConfig) -> (c: MonolithicCoordinator)
        ensures
            c.wf(),
            c.config == config,
            c.types@ == Types::none(),
            c.is_empty(),
            !c.dem_log@.enabled,
    {
        let mut dem_log = DemLog::new();
        dem_log.set_enabled(false);
        MonolithicCoordinator {
            config,
            types: Types::new(),
            gadgets: Registry::new(),
            check_models: Registry::new(),
            error_models: Registry::new(),
            next_gid: 1,
            next_cid: 1,
            next_eid: 1,
            pending_subgraphs: UnionFind::new(),
            gid_to_union_index: IdMap::new(),
            dem_log,
        }
    }

    /// No program runs, and nothing was recorded of one.
    pub open spec fn is_empty(&self) -> bool {
        &&& self.gadgets@ == Map::<u64, Gadget>::empty()
        &&& self.check_models@ == Map::<u64, CheckModel>::empty()
        &&& self.error_models@ == Map::<u64, ErrorModel>::empty()
        &&& self.next_gid == 1
        &&& self.next_cid == 1
        &&& self.next_eid == 1
        &&& self.pending_subgraphs@ == Clusters::empty()
        &&& self.gid_to_union_index@ == Map::<u64, usize>::empty()
        &&& self.dem_log@ == DemState::none(self.dem_log@.enabled)
    }

    /// Loads the types of a library.
    pub fn load_library(&mut self, library: Library) -> (answer: Result<(), Status>)
        requires
            old(self).wf(),
        ensures
            final(self).wf(),
            load_answered(old(self).types@, library, final(self).types@, answer),
            Self::same_program(*old(self), *final(self)),
            final(self).config == old(self).config,
            final(self).next_gid == old(self).next_gid,
            final(self).next_cid == old(self).next_cid,
            final(self).next_eid == old(self).next_eid,
    {
        let ghost before = *self;
        let ghost items = library;
        let answer = self.types.load_library(library);
        proof {
            assert forall|gid: u64| #[trigger] self.gadgets@.contains_key(gid) implies self.types@.gadget_types.contains_key(
                self.gadgets@[gid].instance.gtype,
            ) by {
                assert(before.gadgets@.contains_key(gid));
                crate::library::lemma_loading_keeps_gadget_types(
                    before.types@,
                    items,
                    self.types@,
                    answer,
                    self.gadgets@[gid].instance.gtype,
                );
            }
        }
        answer
    }

    /// What a request for a gadget makes of the program, and how it is answered.
    pub open spec fn gadget_created(before: Self, after: Self, request: bin::Gadget, answer: Result<u64, Status>) -> bool {
        &&& after.types@ == before.types@
        &&& after.config == before.config
        &&& after.next_cid == before.next_cid
        &&& after.next_eid == before.next_eid
        &&& if before.types@.gadget_types.contains_key(request.gtype) {
            let gadget_type = before.types@.gadget_types[request.gtype];
            &&& answer matches Ok(gid)
            &&& assigned(request.gid, before.next_gid, before.gadgets@, gid, after.next_gid)
            &&& gadget_added(before.gadgets@, after.gadgets@, gid, request, gadget_type)
            &&& after.gid_to_union_index@ == before.gid_to_union_index@.insert(
                gid,
                before.pending_subgraphs@.label.len() as usize,
            )
            &&& after.pending_subgraphs@ == clusters_with(
                before.pending_subgraphs@,
                after.gid_to_union_index@,
                request.connectors@,
                gadget_type.outputs@.len(),
            )
            &&& after.check_models@ == before.check_models@
            &&& after.error_models@ == before.error_models@
            &&& after.dem_log@ == before.dem_log@
        } else {
            &&& answer matches Err(status)
            &&& status.is(StatusCode::NotFound, "gtype="@ + decimal(request.gtype as nat))
            &&& exists|gid: u64| #[trigger]
                assigned(request.gid, before.next_gid, before.gadgets@, gid, after.next_gid)
            &&& Self::same_program(before, after)
        }
    }

    /// A request for a gadget is well formed: there is an id for it, and its inputs fit
    /// its type and are connected to open outputs.
    pub open spec fn gadget_request_valid(&self, request: bin::Gadget) -> bool {
        &&& request.gid == 0 ==> has_free_id(self.next_gid, self.gadgets@)
        &&& self.types@.gadget_types.contains_key(request.gtype) ==> {
            &&& request.connectors@.len() == self.types@.gadget_types[request.gtype].inputs@.len()
            &&& connectable(self.gadgets@, request.connectors@)
        }
    }

    /// Creates a gadget.
    pub fn create_gadget(&mut self, request: bin::Gadget) -> (answer: Result<u64, Status>)
        requires
            old(self).wf(),
            old(self).gadget_request_valid(request),
        ensures
            final(self).wf(),
            Self::gadget_created(*old(self), *final(self), request, answer),
    {
        let ghost before = *self;
        let gid: u64 = assign_id(request.gid, &mut self.next_gid, &self.gadgets);
        let Some(gadget_type) = self.types.gadget_types.get(request.gtype) else {
            return Err(Status::with_id(StatusCode::NotFound, "gtype=", request.gtype));
        };
        let ghost connectors = request.connectors@;
        let union_index: usize = self.pending_subgraphs.len();
        self.pending_subgraphs.insert(MonolithicUnionNode::default());
        self.gid_to_union_index.insert(gid, union_index);
        let ghost index = self.gid_to_union_index@;
        let ghost start = before.pending_subgraphs@.inserted(empty_node());
        let count: usize = request.connectors.len();
        let mut k: usize = 0;
        while k < count
            invariant
                k <= count,
                count == connectors.len(),
                connectors == request.connectors@,
                before.wf(),
                connectable(before.gadgets@, connectors),
                self.pending_subgraphs.wf(),
                self.gid_to_union_index@ == index,
                index == before.gid_to_union_index@.insert(gid, union_index),
                union_index == before.pending_subgraphs@.label.len(),
                start == before.pending_subgraphs@.inserted(empty_node()),
                self.pending_subgraphs@ == joined(start, union_index as int, index, connectors, k as int),
                self.types@ == before.types@,
                self.types.wf(),
                self.config == before.config,
                self.next_cid == before.next_cid,
                self.next_eid == before.next_eid,
                assigned(request.gid, before.next_gid, before.gadgets@, gid, self.next_gid),
                self.gadgets.wf(),
                self.gadgets@ == before.gadgets@,
                self.check_models@ == before.check_models@,
                self.check_models.wf(),
                self.error_models@ == before.error_models@,
                self.error_models.wf(),
                self.dem_log@ == before.dem_log@,
                self.dem_log.wf(),
            decreases count - k,
        {
            proof {
                lemma_joined(start, union_index as int, index, connectors, k as int);
                assert(before.gadgets@.contains_key(connectors[k as int].gid));
            }
            let peer: usize = self.gid_to_union_index.get(request.connectors[k].gid).unwrap();
            self.pending_subgraphs.union(union_index, peer);
            k += 1;
        }
        proof {
            lemma_joined(start, union_index as int, index, connectors, count as int);
        }
        let node = self.pending_subgraphs.get(union_index);
        let gadget_type = self.types.gadget_types.get(request.gtype).unwrap();
        let outputs: usize = gadget_type.outputs.len();
        self.pending_subgraphs.set_counts(
            union_index,
            node.num_unloaded_gadgets.wrapping_add(1),
            node.num_unconnected_outputs.wrapping_add(outputs).wrapping_sub(count),
        );
        add_gadget(&mut self.gadgets, gid, request, gadget_type);
        proof {
            assert forall|g: u64| #[trigger] self.gadgets@.contains_key(g) implies self.gid_to_union_index@.contains_key(g)
                && self.gid_to_union_index@[g] < self.pending_subgraphs@.label.len()
                && self.types@.gadget_types.contains_key(self.gadgets@[g].instance.gtype) by {
                assert(self.gadgets@.dom().contains(g));
                if g != gid {
                    assert(before.gadgets@.contains_key(g));
                }
            }
        }
        Ok(gid)
    }

    /// What a request for a check model makes of the program, and how it is answered.
    pub open spec fn check_model_created(
        before: Self,
        after: Self,
        request: bin::CheckModel,
        answer: Result<u64, Status>,
    ) -> bool {
        &&& after.types@ == before.types@
        &&& after.config == before.config
        &&& after.next_gid == before.next_gid
        &&& after.next_eid == before.next_eid
        &&& exists|cid: u64|
            {
                &&& #[trigger] assigned(request.cid, before.next_cid, before.check_models@, cid, after.next_cid)
                &&& if !before.types@.check_model_types.contains_key(request.ctype) {
                    &&& answer matches Err(status)
                    &&& status.is(StatusCode::NotFound, "ctype="@ + decimal(request.ctype as nat))
                    &&& Self::same_program(before, after)
                } else if !before.gadgets@.contains_key(request.gid) {
                    &&& answer matches Err(status)
                    &&& status.is(
                        StatusCode::InvalidArgument,
                        "cid="@ + decimal(cid as nat) + " binding to unknown gid="@ + decimal(request.gid as nat),
                    )
                    &&& Self::same_program(before, after)
                } else {
                    let check_model_type = before.types@.check_model_types[request.ctype];
                    &&& answer == Ok::<u64, Status>(cid)
                    &&& bound(before.gadgets@, after.gadgets@, request.gid, cid)
                    &&& after.check_models@ == before.check_models@.insert(cid, after.check_models@[cid])
                    &&& is_new_check_model(after.check_models@[cid], cid, request, check_model_type, Seq::empty())
                    &&& after.dem_log@ == before.dem_log@.after_check_model(
                        request.gid,
                        cid,
                        check_model_type.checks@.len() as u64,
                    )
                    &&& after.error_models@ == before.error_models@
                    &&& after.pending_subgraphs@ == before.pending_subgraphs@
                    &&& after.gid_to_union_index@ == before.gid_to_union_index@
                }
            }
    }

    /// A request for a check model is well formed: there is an id for it, its type fits
    /// the gadget, and the gadget has no check model yet.
    pub open spec fn check_model_request_valid(&self, request: bin::CheckModel) -> bool {
        &&& request.cid == 0 ==> has_free_id(self.next_cid, self.check_models@)
        &&& gadget_reroutes_fit(request)
        &&& self.types@.check_model_types.contains_key(request.ctype) && self.gadgets@.contains_key(request.gid) ==> {
            let gtype = self.types@.check_model_types[request.ctype].gtype;
            &&& gtype == WILDCARD || gtype == self.gadgets@[request.gid].instance.gtype
            &&& self.gadgets@[request.gid].binding_cid is None
        }
    }

    /// Creates a check model.
    pub fn create_check_model(&mut self, request: bin::CheckModel) -> (answer: Result<u64, Status>)
        requires
            old(self).wf(),
            old(self).check_model_request_valid(request),
        ensures
            final(self).wf(),
            Self::check_model_created(*old(self), *final(self), request, answer),
    {
        let ghost before = *self;
        let cid: u64 = assign_id(request.cid, &mut self.next_cid, &self.check_models);
        let Some(check_model_type) = self.types.check_model_types.get(request.ctype) else {
            return Err(Status::with_id(StatusCode::NotFound, "ctype=", request.ctype));
        };
        if !self.gadgets.contains_key(request.gid) {
            return Err(
                Status {
                    code: StatusCode::InvalidArgument,
                    message: labelled_pair("cid=", cid, " binding to unknown gid=", request.gid),
                },
            );
        }
        let modified_remote = modified_remote_gadgets(&check_model_type.remote_gadgets, &request.modifier);
        let count: u64 = check_model_type.checks.len() as u64;
        self.gadgets.get_mut(request.gid).binding_cid = Some(cid);
        proof {
            assert(self.gadgets@.dom() =~= before.gadgets@.dom());
            assert(bound(before.gadgets@, self.gadgets@, request.gid, cid));
        }
        self.dem_log.on_check_model(request.gid, cid, count);
        self.check_models.insert(
            cid,
            CheckModel {
                instance: bin::CheckModel { cid, ..request },
                attaching_eid_vec: Vec::new(),
                modified_remote_gadgets: modified_remote,
                expanded_remote_gadgets: None,
                syndrome: None,
                referring_eids: Vec::new(),
            },
        );
        proof {
            assert forall|g: u64| #[trigger] self.gadgets@.contains_key(g) implies self.gid_to_union_index@.contains_key(g)
                && self.gid_to_union_index@[g] < self.pending_subgraphs@.label.len()
                && self.types@.gadget_types.contains_key(self.gadgets@[g].instance.gtype) by {
                assert(before.gadgets@.contains_key(g));
            }
            assert(assigned(request.cid, before.next_cid, before.check_models@, cid, self.next_cid));
        }
        Ok(cid)
    }

    /// What a request for an error model makes of the program, and how it is answered.
    pub open spec fn error_model_created(
        before: Self,
        after: Self,
        request: bin::ErrorModel,
        answer: Result<u64, Status>,
    ) -> bool {
        &&& after.types@ == before.types@
        &&& after.config == before.config
        &&& after.next_gid == before.next_gid
        &&& after.next_cid == before.next_cid
        &&& exists|eid: u64|
            {
                &&& #[trigger] assigned(request.eid, before.next_eid, before.error_models@, eid, after.next_eid)
                &&& if !before.types@.error_model_types.contains_key(request.etype) {
                    &&& answer matches Err(status)
                    &&& status.is(StatusCode::NotFound, "etype="@ + decimal(request.etype as nat))
                    &&& Self::same_program(before, after)
                } else if !before.check_models@.contains_key(request.cid) {
                    &&& answer matches Err(status)
                    &&& status.is(
                        StatusCode::InvalidArgument,
                        "eid="@ + decimal(eid as nat) + " attaching to unknown cid="@ + decimal(request.cid as nat),
                    )
                    &&& Self::same_program(before, after)
                } else {
                    let error_model_type = before.types@.error_model_types[request.etype];
                    &&& answer == Ok::<u64, Status>(eid)
                    &&& attached(before.check_models@, after.check_models@, request.cid, eid)
                    &&& after.error_models@ == before.error_models@.insert(eid, after.error_models@[eid])
                    &&& is_new_error_model(after.error_models@[eid], eid, request, error_model_type)
                    &&& after.dem_log@ == recorded(
                        before.dem_log@,
                        before.check_models@[request.cid].instance.gid,
                        eid,
                        request,
                        error_model_type,
                    )
                    &&& after.gadgets@ == before.gadgets@
                    &&& after.pending_subgraphs@ == before.pending_subgraphs@
                    &&& after.gid_to_union_index@ == before.gid_to_union_index@
                }
            }
    }

    /// A request for an error model is well formed: there is an id for it, its type fits
    /// the check model, and its mechanisms can be recorded if they are to be.
    pub open spec fn error_model_request_valid(&self, request: bin::ErrorModel) -> bool {
        &&& request.eid == 0 ==> has_free_id(self.next_eid, self.error_models@)
        &&& check_model_reroutes_fit(request)
        &&& self.types@.error_model_types.contains_key(request.etype) && self.check_models@.contains_key(request.cid) ==> {
            let ctype = self.types@.error_model_types[request.etype].ctype;
            &&& ctype == WILDCARD || ctype == self.check_models@[request.cid].instance.ctype
            &&& self.dem_log@.enabled ==> forall|eid: u64| #[trigger]
                recordable(
                    self.check_models@[request.cid].instance.gid,
                    eid,
                    request,
                    self.types@.error_model_types[request.etype],
                )
        }
    }

    /// Creates an error model.
    pub fn create_error_model(&mut self, request: bin::ErrorModel) -> (answer: Result<u64, Status>)
        requires
            old(self).wf(),
            old(self).error_model_request_valid(request),
        ensures
            final(self).wf(),
            Self::error_model_created(*old(self), *final(self), request, answer),
    {
        let ghost before = *self;
        let eid: u64 = assign_id(request.eid, &mut self.next_eid, &self.error_models);
        let Some(error_model_type) = self.types.error_model_types.get(request.etype) else {
            return Err(Status::with_id(StatusCode::NotFound, "etype=", request.etype));
        };
        if !self.check_models.contains_key(request.cid) {
            return Err(
                Status {
                    code: StatusCode::InvalidArgument,
                    message: labelled_pair("eid=", eid, " attaching to unknown cid=", request.cid),
                },
            );
        }
        let modified_remote = modified_remote_check_models(&error_model_type.remote_check_models, &request.modifier);
        let gid: u64 = self.check_models.get(request.cid).unwrap().instance.gid;
        if self.dem_log.is_enabled() {
            assert(recordable(gid, eid, request, *error_model_type));
            let errors = effective_errors(error_model_type, &request);
            self.dem_log.on_error_model(gid, eid, request.cid, errors, &modified_remote);
        }
        self.check_models.get_mut(request.cid).attaching_eid_vec.push(eid);
        proof {
            assert(self.check_models@.dom() =~= before.check_models@.dom());
            assert(attached(before.check_models@, self.check_models@, request.cid, eid));
        }
        self.error_models.insert(
            eid,
            ErrorModel {
                instance: bin::ErrorModel { eid, ..request },
                modified_remote_check_models: modified_remote,
                expanded_remote_check_models: None,
            },
        );
        assert(assigned(request.eid, before.next_eid, before.error_models@, eid, self.next_eid));
        Ok(eid)
    }

    /// An instruction is well formed.
    pub open spec fn instruction_valid(&self, instruction: Instruction) -> bool {
        match instruction.create {
            Some(Create::Gadget(request)) => self.gadget_request_valid(request),
            Some(Create::CheckModel(request)) => self.check_model_request_valid(request),
            Some(Create::ErrorModel(request)) => self.error_model_request_valid(request),
            None => true,
        }
    }

    /// What an instruction makes of the program, and how it is answered.
    pub open spec fn executed(before: Self, after: Self, instruction: Instruction, answer: Result<u64, Status>) -> bool {
        match instruction.create {
            Some(Create::Gadget(request)) => Self::gadget_created(before, after, request, answer),
            Some(Create::CheckModel(request)) => Self::check_model_created(before, after, request, answer),
            Some(Create::ErrorModel(request)) => Self::error_model_created(before, after, request, answer),
            None => {
                &&& answer matches Err(status)
                &&& status.is(StatusCode::InvalidArgument, "unknown instruction"@)
                &&& after == before
            },
        }
    }

    /// Executes an instruction; the answer is the id of the new instance.
    pub fn execute(&mut self, instruction: Instruction) -> (answer: Result<u64, Status>)
        requires
            old(self).wf(),
            old(self).instruction_valid(instruction),
        ensures
            final(self).wf(),
            Self::executed(*old(self), *final(self), instruction, answer),
    {
        match instruction.create {
            Some(Create::Gadget(request)) => self.create_gadget(request),
            Some(Create::CheckModel(request)) => self.create_check_model(request),
            Some(Create::ErrorModel(request)) => self.create_error_model(request),
            None => Err(Status::new(StatusCode::InvalidArgument, "unknown instruction")),
        }
    }
}

/// A created check model is bound to its gadget, starts without error models and is
/// announced with all checks of its type; nothing else is changed.
pub proof fn law_created_check_model_is_bound(
    before: MonolithicCoordinator,
    after: MonolithicCoordinator,
    request: bin::CheckModel,
    answer: Result<u64, Status>,
    cid: u64,
    g: u64,
)
    requires
        MonolithicCoordinator::check_model_created(before, after, request, answer),
        answer == Ok::<u64, Status>(cid),
        before.gadgets@.contains_key(g),
    ensures
        before.gadgets@.contains_key(request.gid),
        request.cid != 0 ==> cid == request.cid,
        request.cid == 0 ==> !before.check_models@.contains_key(cid),
        after.gadgets@[request.gid].binding_cid == Some(cid),
        after.gadgets@[request.gid].outputs == before.gadgets@[request.gid].outputs,
        after.gadgets@[request.gid].outcomes == before.gadgets@[request.gid].outcomes,
        g != request.gid ==> after.gadgets@[g] == before.gadgets@[g],
        after.check_models@[cid].instance == (bin::CheckModel { cid, ..request }),
        after.check_models@[cid].attaching_eid_vec@.len() == 0,
        after.check_models@[cid].syndrome is None,
        before.dem_log@.enabled ==> after.dem_log@.detector_groups.len() == before.dem_log@.detector_groups.len() + 1
            && after.dem_log@.detector_groups.last().cid == cid && after.dem_log@.detector_groups.last().gid == request.gid
            && after.dem_log@.known_cids.contains(cid),
{
}

/// A created error model is attached to its check model, behind those that were, and keeps
/// what was asked for; gadgets are not changed.
pub proof fn law_created_error_model_is_attached(
    before: MonolithicCoordinator,
    after: MonolithicCoordinator,
    request: bin::ErrorModel,
    answer: Result<u64, Status>,
    eid: u64,
    c: u64,
)
    requires
        MonolithicCoordinator::error_model_created(before, after, request, answer),
        answer == Ok::<u64, Status>(eid),
        before.check_models@.contains_key(c),
    ensures
        before.check_models@.contains_key(request.cid),
        request.eid != 0 ==> eid == request.eid,
        request.eid == 0 ==> !before.error_models@.contains_key(eid),
        after.check_models@[request.cid].attaching_eid_vec@ == before.check_models@[request.cid].attaching_eid_vec@.push(eid),
        c != request.cid ==> after.check_models@[c] == before.check_models@[c],
        after.error_models@[eid].instance == (bin::ErrorModel { eid, ..request }),
        after.gadgets@ == before.gadgets@,
        forall|e: u64| #[trigger] before.error_models@.contains_key(e) && e != eid ==> after.error_models@[e]
            == before.error_models@[e],
{
}

} // verus!
