//! The part of a program that one decode looks at: which gadgets it numbers, with
//! which check models and which error models.
use crate::bin::{copy_vec, CheckModelType, Connector};
use crate::collections::IdSet;
use crate::network::{CheckModel, ErrorModel, Gadget, GadgetState};
use crate::order::{lemma_strictly_increasing_unique, strictly_increasing};
use crate::registry::Registry;
use crate::relative::{ExpandedCheckModel, ExpandedErrorModel, ExpandedGadget};
use crate::remote::{
    check_model_slots, expand_remote_check_models_in_window, window_check_model, window_reach_of, window_slot_valid, Target,
    WindowReach,
};
use vstd::prelude::*;

verus! {

/// The value of an [`ExpandedCheckModel`].
#[verifier::ext_equal]
pub struct CheckModelView {
    pub cid: u64,
    pub ctype: u64,
    pub remote_gadgets: Seq<Option<u64>>,
    pub count_checks: nat,
}

/// The value of an [`ExpandedErrorModel`].
#[verifier::ext_equal]
pub struct ErrorModelView {
    pub eid: u64,
    pub etype: u64,
    pub remote_check_models: Seq<Option<u64>>,
}

/// The value of an [`ExpandedGadget`].
#[verifier::ext_equal]
pub struct GadgetView {
    pub gid: u64,
    pub gtype: u64,
    pub inputs: Seq<Option<Connector>>,
    pub outputs: Seq<Option<Connector>>,
    pub check_model: Option<CheckModelView>,
    pub error_models: Seq<ErrorModelView>,
}

/// The value of an expanded error model.
pub open spec fn error_model_view(e: ExpandedErrorModel) -> ErrorModelView {
    ErrorModelView { eid: e.eid, etype: e.etype, remote_check_models: e.remote_check_models@ }
}

/// The value of an expanded gadget.
pub open spec fn gadget_view(g: ExpandedGadget) -> GadgetView {
    GadgetView {
        gid: g.gid,
        gtype: g.gtype,
        inputs: g.inputs@,
        outputs: g.outputs@,
        check_model: match g.check_model {
            Some(c) => Some(
                CheckModelView {
                    cid: c.cid,
                    ctype: c.ctype,
                    remote_gadgets: c.remote_gadgets@,
                    count_checks: c.count_checks as nat,
                },
            ),
            None => None,
        },
        error_models: g.error_models@.map_values(|e: ExpandedErrorModel| error_model_view(e)),
    }
}

/// The values of a list of expanded gadgets.
pub open spec fn gadgets_view(list: Seq<ExpandedGadget>) -> Seq<GadgetView> {
    list.map_values(|g: ExpandedGadget| gadget_view(g))
}

/// The program around a window.
pub struct Scene {
    pub gadgets: Map<u64, Gadget>,
    pub check_models: Map<u64, CheckModel>,
    pub error_models: Map<u64, ErrorModel>,
    pub check_model_types: Map<u64, CheckModelType>,
    pub window: Set<u64>,
}

/// The program around a window, for reading.
pub struct SceneRef<'a> {
    pub gadgets: &'a Registry<Gadget>,
    pub check_models: &'a Registry<CheckModel>,
    pub error_models: &'a Registry<ErrorModel>,
    pub check_model_types: &'a Registry<CheckModelType>,
    pub window: &'a IdSet,
}

impl<'a> SceneRef<'a> {
    /// The tables are in order.
    pub open spec fn wf(&self) -> bool {
        &&& self.gadgets.wf()
        &&& self.check_models.wf()
        &&& self.error_models.wf()
        &&& self.check_model_types.wf()
    }

    /// The tables as maps.
    pub open spec fn view(&self) -> Scene {
        Scene {
            gadgets: self.gadgets@,
            check_models: self.check_models@,
            error_models: self.error_models@,
            check_model_types: self.check_model_types@,
            window: self.window@,
        }
    }
}

// ---------------------------------------------------------------------------
// Gadgets of the window
// ---------------------------------------------------------------------------

/// The inputs of a gadget, all of them connected.
pub open spec fn inputs_of(gadget: Gadget) -> Seq<Option<Connector>> {
    gadget.instance.connectors@.map_values(|c: Connector| Some(c))
}

/// An error model of gadget `gid`, with its references inside the window. None if it
/// does not exist or a reference is invalid.
pub open spec fn error_model_in(scene: Scene, gid: u64, eid: u64) -> Option<ErrorModelView> {
    if !scene.error_models.contains_key(eid) {
        None
    } else {
        let model = scene.error_models[eid];
        let slots = check_model_slots(model.modified_remote_check_models@);
        if forall|ri: int|
            0 <= ri < model.modified_remote_check_models@.len() ==> window_slot_valid(
                scene.gadgets,
                #[trigger] window_reach_of(scene.gadgets, scene.window, slots, gid, ri),
            ) {
            Some(
                ErrorModelView {
                    eid,
                    etype: model.instance.etype,
                    remote_check_models: Seq::new(
                        model.modified_remote_check_models@.len(),
                        |ri: int|
                            window_check_model(
                                scene.gadgets,
                                window_reach_of(scene.gadgets, scene.window, slots, gid, ri),
                            ),
                    ),
                },
            )
        } else {
            None
        }
    }
}

/// The first `n` listed error models of gadget `gid`.
pub open spec fn error_models_in(scene: Scene, gid: u64, eids: Seq<u64>, n: int) -> Option<Seq<ErrorModelView>>
    decreases n,
{
    if n <= 0 {
        Some(Seq::empty())
    } else {
        match (error_models_in(scene, gid, eids, n - 1), error_model_in(scene, gid, eids[n - 1])) {
            (Some(before), Some(model)) => Some(before.push(model)),
            _ => None,
        }
    }
}

/// A missing error model leaves longer lists without a value too.
proof fn lemma_error_models_settle(scene: Scene, gid: u64, eids: Seq<u64>, n: int, m: int)
    requires
        n <= m,
        error_models_in(scene, gid, eids, n) is None,
    ensures
        error_models_in(scene, gid, eids, m) is None,
    decreases m - n,
{
    if n < m {
        lemma_error_models_settle(scene, gid, eids, n, m - 1);
    }
}

/// The check model `cid` with its remote gadgets. None if something about it is not
/// known.
pub open spec fn check_model_in(scene: Scene, cid: u64) -> Option<CheckModelView> {
    if scene.check_models.contains_key(cid) && scene.check_models[cid].expanded_remote_gadgets is Some
        && scene.check_model_types.contains_key(scene.check_models[cid].instance.ctype) {
        let model = scene.check_models[cid];
        Some(
            CheckModelView {
                cid,
                ctype: model.instance.ctype,
                remote_gadgets: model.expanded_remote_gadgets->0@,
                count_checks: scene.check_model_types[model.instance.ctype].checks@.len(),
            },
        )
    } else {
        None
    }
}

/// A gadget of the window. A committed gadget contributes its checks only: the
/// effects of its errors are applied already. None if something is not known.
pub open spec fn gadget_in(scene: Scene, gid: u64) -> Option<GadgetView> {
    if !scene.gadgets.contains_key(gid) {
        None
    } else {
        let gadget = scene.gadgets[gid];
        let bare = GadgetView {
            gid,
            gtype: gadget.instance.gtype,
            inputs: inputs_of(gadget),
            outputs: gadget.outputs@,
            check_model: None,
            error_models: Seq::empty(),
        };
        match gadget.binding_cid {
            None => Some(bare),
            Some(cid) => match check_model_in(scene, cid) {
                None => None,
                Some(check_model) => if gadget.state == GadgetState::Committed {
                    Some(GadgetView { check_model: Some(check_model), ..bare })
                } else {
                    let eids = scene.check_models[cid].attaching_eid_vec@;
                    match error_models_in(scene, gid, eids, eids.len() as int) {
                        None => None,
                        Some(error_models) => Some(
                            GadgetView { check_model: Some(check_model), error_models, ..bare },
                        ),
                    }
                },
            },
        }
    }
}

/// The first `n` gadgets of the window.
pub open spec fn gadgets_in(scene: Scene, gids: Seq<u64>, n: int) -> Option<Seq<GadgetView>>
    decreases n,
{
    if n <= 0 {
        Some(Seq::empty())
    } else {
        match (gadgets_in(scene, gids, n - 1), gadget_in(scene, gids[n - 1])) {
            (Some(before), Some(gadget)) => Some(before.push(gadget)),
            _ => None,
        }
    }
}

/// A missing gadget leaves longer lists without a value too.
proof fn lemma_gadgets_settle(scene: Scene, gids: Seq<u64>, n: int, m: int)
    requires
        n <= m,
        gadgets_in(scene, gids, n) is None,
    ensures
        gadgets_in(scene, gids, m) is None,
    decreases m - n,
{
    if n < m {
        lemma_gadgets_settle(scene, gids, n, m - 1);
    }
}

/// The inputs of a gadget.
pub fn list_inputs(gadget: &Gadget) -> (inputs: Vec<Option<Connector>>)
    ensures
        inputs@ == inputs_of(*gadget),
{
    let mut inputs: Vec<Option<Connector>> = Vec::new();
    let mut i: usize = 0;
    while i < gadget.instance.connectors.len()
        invariant
            i <= gadget.instance.connectors@.len(),
            inputs@ =~= inputs_of(*gadget).take(i as int),
        decreases gadget.instance.connectors@.len() - i,
    {
        inputs.push(Some(gadget.instance.connectors[i]));
        i += 1;
    }
    assert(inputs@ =~= inputs_of(*gadget));
    inputs
}

/// Expands the listed error models of gadget `gid`.
fn expand_error_models(scene: &SceneRef, gid: u64, eids: &Vec<u64>) -> (models: Option<Vec<ExpandedErrorModel>>)
    requires
        scene.wf(),
    ensures
        match error_models_in(scene@, gid, eids@, eids@.len() as int) {
            Some(expected) => models matches Some(list) && list@.map_values(|e: ExpandedErrorModel| error_model_view(e)) == expected,
            None => models is None,
        },
{
    let mut models: Vec<ExpandedErrorModel> = Vec::new();
    let mut n: usize = 0;
    let ghost f = |e: ExpandedErrorModel| error_model_view(e);
    assert(models@.map_values(f) =~= Seq::<ErrorModelView>::empty());
    while n < eids.len()
        invariant
            n <= eids@.len(),
            scene.wf(),
            f == (|e: ExpandedErrorModel| error_model_view(e)),
            error_models_in(scene@, gid, eids@, n as int) == Some(models@.map_values(f)),
        decreases eids@.len() - n,
    {
        let eid: u64 = eids[n];
        proof {
            if error_models_in(scene@, gid, eids@, n as int + 1) is None {
                lemma_error_models_settle(scene@, gid, eids@, n as int + 1, eids@.len() as int);
            }
        }
        let Some(model) = scene.error_models.get(eid) else {
            return None;
        };
        let Some(remote_check_models) = expand_remote_check_models_in_window(
            gid,
            &model.modified_remote_check_models,
            scene.gadgets,
            scene.window,
        ) else {
            assert(error_model_in(scene@, gid, eid) is None);
            return None;
        };
        let ghost before = models@;
        let expanded = ExpandedErrorModel { eid, etype: model.instance.etype, remote_check_models };
        proof {
            assert(error_model_in(scene@, gid, eid) is Some);
            assert(error_model_view(expanded) =~= error_model_in(scene@, gid, eid)->0);
        }
        models.push(expanded);
        assert(models@.map_values(f) =~= before.map_values(f).push(error_model_view(expanded)));
        n += 1;
    }
    Some(models)
}

/// Expands a gadget of the window.
fn expand_gadget(scene: &SceneRef, gid: u64) -> (expanded: Option<ExpandedGadget>)
    requires
        scene.wf(),
    ensures
        match gadget_in(scene@, gid) {
            Some(expected) => expanded matches Some(g) && gadget_view(g) == expected,
            None => expanded is None,
        },
{
    let Some(gadget) = scene.gadgets.get(gid) else {
        return None;
    };
    let inputs = list_inputs(gadget);
    let outputs = copy_vec(&gadget.outputs);
    let gtype: u64 = gadget.instance.gtype;
    let mut check_model: Option<ExpandedCheckModel> = None;
    let mut error_models: Vec<ExpandedErrorModel> = Vec::new();
    assert(error_models@.map_values(|e: ExpandedErrorModel| error_model_view(e)) =~= Seq::<ErrorModelView>::empty());
    if let Some(cid) = gadget.binding_cid {
        let Some(model) = scene.check_models.get(cid) else {
            return None;
        };
        let Some(remote_gadgets) = &model.expanded_remote_gadgets else {
            return None;
        };
        let Some(check_model_type) = scene.check_model_types.get(model.instance.ctype) else {
            return None;
        };
        check_model = Some(
            ExpandedCheckModel {
                cid,
                ctype: model.instance.ctype,
                remote_gadgets: copy_vec(remote_gadgets),
                count_checks: check_model_type.checks.len(),
            },
        );
        let committed = match gadget.state {
            GadgetState::Committed => true,
            _ => false,
        };
        if !committed {
            let Some(own) = expand_error_models(scene, gid, &model.attaching_eid_vec) else {
                return None;
            };
            error_models = own;
        }
    }
    let expanded = ExpandedGadget { gid, gtype, inputs, outputs, check_model, error_models };
    assert(gadget_view(expanded) =~= gadget_in(scene@, gid)->0);
    Some(expanded)
}

// ---------------------------------------------------------------------------
// Gadgets outside the window whose errors reach into it
// ---------------------------------------------------------------------------

/// The error models of other gadgets that refer to check models of the first `n`
/// listed gadgets, as often as they do.
pub open spec fn referring(scene: Scene, gids: Seq<u64>, n: int) -> Seq<u64>
    decreases n,
{
    if n <= 0 {
        Seq::empty()
    } else {
        let before = referring(scene, gids, n - 1);
        match scene.gadgets[gids[n - 1]].binding_cid {
            Some(cid) => before + scene.check_models[cid].referring_eids@,
            None => before,
        }
    }
}

/// The gadget that owns an error model. None if it is not known.
pub open spec fn owner_of(scene: Scene, eid: u64) -> Option<u64> {
    if scene.error_models.contains_key(eid) && scene.check_models.contains_key(scene.error_models[eid].instance.cid) {
        Some(scene.check_models[scene.error_models[eid].instance.cid].instance.gid)
    } else {
        None
    }
}

/// The first `n` referring error models, each once, that belong to gadgets outside the
/// window that are not committed, with these gadgets. None if something is not known.
pub open spec fn outside_pairs(scene: Scene, eids: Seq<u64>, n: int) -> Option<Seq<(u64, u64)>>
    decreases n,
{
    if n <= 0 {
        Some(Seq::empty())
    } else {
        match outside_pairs(scene, eids, n - 1) {
            None => None,
            Some(before) => if eids.take(n - 1).contains(eids[n - 1]) {
                Some(before)
            } else {
                match owner_of(scene, eids[n - 1]) {
                    None => None,
                    Some(owner) => if scene.window.contains(owner) {
                        Some(before)
                    } else if !scene.gadgets.contains_key(owner) {
                        None
                    } else if scene.gadgets[owner].state == GadgetState::Committed {
                        Some(before)
                    } else {
                        Some(before.push((owner, eids[n - 1])))
                    }
                }
            },
        }
    }
}

/// The error models that pairs list for an owner.
pub open spec fn group(pairs: Seq<(u64, u64)>, owner: u64) -> Seq<u64>
    decreases pairs.len(),
{
    if pairs.len() == 0 {
        Seq::empty()
    } else if pairs.last().0 == owner {
        group(pairs.drop_last(), owner).push(pairs.last().1)
    } else {
        group(pairs.drop_last(), owner)
    }
}

/// The owners, in increasing order.
pub open spec fn are_owners(owners: Seq<u64>, pairs: Seq<(u64, u64)>) -> bool {
    &&& strictly_increasing(owners)
    &&& forall|g: u64| #[trigger] owners.contains(g) <==> group(pairs, g).len() > 0
}

/// A gadget outside the window that contributes errors only.
pub open spec fn outside_gadget(scene: Scene, gid: u64, eids: Seq<u64>) -> Option<GadgetView> {
    if !scene.gadgets.contains_key(gid) {
        None
    } else {
        match error_models_in(scene, gid, eids, eids.len() as int) {
            None => None,
            Some(error_models) => Some(
                GadgetView {
                    gid,
                    gtype: scene.gadgets[gid].instance.gtype,
                    inputs: inputs_of(scene.gadgets[gid]),
                    outputs: scene.gadgets[gid].outputs@,
                    check_model: None,
                    error_models,
                },
            ),
        }
    }
}

/// The first `n` gadgets outside the window.
pub open spec fn outside_gadgets(scene: Scene, owners: Seq<u64>, pairs: Seq<(u64, u64)>, n: int) -> Option<Seq<GadgetView>>
    decreases n,
{
    if n <= 0 {
        Some(Seq::empty())
    } else {
        match (
            outside_gadgets(scene, owners, pairs, n - 1),
            outside_gadget(scene, owners[n - 1], group(pairs, owners[n - 1])),
        ) {
            (Some(before), Some(gadget)) => Some(before.push(gadget)),
            _ => None,
        }
    }
}

/// A missing gadget leaves longer lists without a value too.
proof fn lemma_outside_settle(scene: Scene, owners: Seq<u64>, pairs: Seq<(u64, u64)>, n: int, m: int)
    requires
        n <= m,
        outside_gadgets(scene, owners, pairs, n) is None,
    ensures
        outside_gadgets(scene, owners, pairs, m) is None,
    decreases m - n,
{
    if n < m {
        lemma_outside_settle(scene, owners, pairs, n, m - 1);
    }
}

/// A missing owner leaves longer lists without a value too.
proof fn lemma_pairs_settle(scene: Scene, eids: Seq<u64>, n: int, m: int)
    requires
        n <= m,
        outside_pairs(scene, eids, n) is None,
    ensures
        outside_pairs(scene, eids, m) is None,
    decreases m - n,
{
    if n < m {
        lemma_pairs_settle(scene, eids, n, m - 1);
    }
}

/// What a decode of the listed window looks at: the gadgets of the window in
/// increasing order, then the gadgets outside it whose errors reach into it.
pub open spec fn is_window_program(scene: Scene, gids: Seq<u64>, program: Seq<GadgetView>) -> bool {
    exists|owners: Seq<u64>| #[trigger] is_program_with(scene, gids, owners, program)
}

/// [`is_window_program`], with the given owners of errors outside the window.
pub open spec fn is_program_with(scene: Scene, gids: Seq<u64>, owners: Seq<u64>, program: Seq<GadgetView>) -> bool {
    let inside = gadgets_in(scene, gids, gids.len() as int);
    let eids = referring(scene, gids, gids.len() as int);
    let pairs = outside_pairs(scene, eids, eids.len() as int);
    &&& inside is Some
    &&& pairs is Some
    &&& are_owners(owners, pairs->0)
    &&& outside_gadgets(scene, owners, pairs->0, owners.len() as int) is Some
    &&& program == inside->0 + outside_gadgets(scene, owners, pairs->0, owners.len() as int)->0
}

/// Owners are determined by the pairs.
proof fn lemma_owners_unique(a: Seq<u64>, b: Seq<u64>, pairs: Seq<(u64, u64)>)
    requires
        are_owners(a, pairs),
        are_owners(b, pairs),
    ensures
        a == b,
{
    assert(a.to_set() =~= b.to_set()) by {
        assert forall|g: u64| a.contains(g) <==> b.contains(g) by {
        }
    }
    lemma_strictly_increasing_unique(a, b);
}

/// The pairs of owners and error models, grouped.
spec fn grouped(map: Map<u64, Vec<u64>>, pairs: Seq<(u64, u64)>) -> bool {
    &&& forall|g: u64| #[trigger] map.contains_key(g) ==> map[g]@ == group(pairs, g) && group(pairs, g).len() > 0
    &&& forall|g: u64| group(pairs, g).len() > 0 ==> #[trigger] map.contains_key(g)
}

/// Adds an error model to the group of its owner.
fn add_to_group(groups: &mut Registry<Vec<u64>>, owner: u64, eid: u64, Ghost(pairs): Ghost<Seq<(u64, u64)>>)
    requires
        old(groups).wf(),
        grouped(old(groups)@, pairs),
    ensures
        final(groups).wf(),
        grouped(final(groups)@, pairs.push((owner, eid))),
{
    let ghost before = groups@;
    let ghost after = pairs.push((owner, eid));
    assert(after.drop_last() =~= pairs);
    if groups.contains_key(owner) {
        groups.get_mut(owner).push(eid);
        proof {
            assert(groups@[owner]@ == group(after, owner));
            assert forall|g: u64| #[trigger] groups@.contains_key(g) implies groups@[g]@ == group(after, g) && group(after, g).len()
                > 0 by {
                if g != owner {
                    assert(before.contains_key(g));
                }
            }
            assert forall|g: u64| group(after, g).len() > 0 implies #[trigger] groups@.contains_key(g) by {
                if g != owner {
                    assert(before.contains_key(g));
                }
            }
        }
    } else {
        let mut list: Vec<u64> = Vec::new();
        list.push(eid);
        assert(group(pairs, owner) =~= Seq::<u64>::empty());
        assert(list@ =~= group(after, owner));
        groups.insert(owner, list);
        proof {
            assert forall|g: u64| #[trigger] groups@.contains_key(g) implies groups@[g]@ == group(after, g) && group(after, g).len()
                > 0 by {
                if g != owner {
                    assert(before.contains_key(g));
                }
            }
            assert forall|g: u64| group(after, g).len() > 0 implies #[trigger] groups@.contains_key(g) by {
                if g != owner {
                    assert(before.contains_key(g));
                }
            }
        }
    }
}

/// Collects the error models that refer to check models of the listed gadgets.
fn collect_referring(scene: &SceneRef, gids: &Vec<u64>) -> (eids: Vec<u64>)
    requires
        scene.wf(),
        gadgets_in(scene@, gids@, gids@.len() as int) is Some,
    ensures
        eids@ == referring(scene@, gids@, gids@.len() as int),
{
    let mut eids: Vec<u64> = Vec::new();
    let mut n: usize = 0;
    while n < gids.len()
        invariant
            n <= gids@.len(),
            scene.wf(),
            gadgets_in(scene@, gids@, gids@.len() as int) is Some,
            eids@ == referring(scene@, gids@, n as int),
        decreases gids@.len() - n,
    {
        proof {
            if gadgets_in(scene@, gids@, n as int + 1) is None {
                lemma_gadgets_settle(scene@, gids@, n as int + 1, gids@.len() as int);
            }
        }
        let gadget = scene.gadgets.get(gids[n]).unwrap();
        if let Some(cid) = gadget.binding_cid {
            let mut more = copy_vec(&scene.check_models.get(cid).unwrap().referring_eids);
            eids.append(&mut more);
        }
        n += 1;
    }
    eids
}

/// Groups the referring error models by the gadgets outside the window that own them.
fn group_outside(scene: &SceneRef, eids: &Vec<u64>) -> (groups: Option<Registry<Vec<u64>>>)
    requires
        scene.wf(),
    ensures
        match outside_pairs(scene@, eids@, eids@.len() as int) {
            Some(pairs) => groups matches Some(table) && table.wf() && grouped(table@, pairs),
            None => groups is None,
        },
{
    let mut groups: Registry<Vec<u64>> = Registry::new();
    let mut seen = IdSet::new();
    let ghost mut pairs: Seq<(u64, u64)> = Seq::empty();
    let mut n: usize = 0;
    assert(eids@.take(0).to_set() =~= Set::<u64>::empty());
    while n < eids.len()
        invariant
            n <= eids@.len(),
            scene.wf(),
            groups.wf(),
            seen@ == eids@.take(n as int).to_set(),
            outside_pairs(scene@, eids@, n as int) == Some(pairs),
            grouped(groups@, pairs),
        decreases eids@.len() - n,
    {
        let eid: u64 = eids[n];
        let ghost before = eids@.take(n as int);
        proof {
            assert(eids@.take(n as int + 1) =~= before.push(eid));
            before.lemma_push_to_set_commute(eid);
            if outside_pairs(scene@, eids@, n as int + 1) is None {
                lemma_pairs_settle(scene@, eids@, n as int + 1, eids@.len() as int);
            }
        }
        let fresh = seen.insert(eid);
        if fresh {
            assert(!before.contains(eid));
            let Some(error_model) = scene.error_models.get(eid) else {
                return None;
            };
            let Some(owner_model) = scene.check_models.get(error_model.instance.cid) else {
                return None;
            };
            let owner: u64 = owner_model.instance.gid;
            if !scene.window.contains(owner) {
                let Some(owner_gadget) = scene.gadgets.get(owner) else {
                    return None;
                };
                let committed = match owner_gadget.state {
                    GadgetState::Committed => true,
                    _ => false,
                };
                if !committed {
                    add_to_group(&mut groups, owner, eid, Ghost(pairs));
                    proof {
                        pairs = pairs.push((owner, eid));
                    }
                }
            }
        } else {
            assert(before.to_set().contains(eid));
        }
        n += 1;
    }
    Some(groups)
}

/// The owners of the groups, in increasing order.
fn sorted_owners(groups: &Registry<Vec<u64>>, Ghost(pairs): Ghost<Seq<(u64, u64)>>) -> (owners: Vec<u64>)
    requires
        groups.wf(),
        grouped(groups@, pairs),
    ensures
        are_owners(owners@, pairs),
{
    let mut owners = IdSet::new();
    let count: usize = groups.len();
    let mut i: usize = 0;
    while i < count
        invariant
            i <= count,
            groups.wf(),
            count == groups.id_seq().len(),
            owners@ == groups.id_seq().take(i as int).to_set(),
        decreases count - i,
    {
        let id: u64 = groups.id_at(i);
        owners.insert(id);
        proof {
            let before = groups.id_seq().take(i as int);
            assert(groups.id_seq().take(i as int + 1) =~= before.push(id));
            before.lemma_push_to_set_commute(id);
        }
        i += 1;
    }
    let sorted = owners.sorted_ids();
    proof {
        groups.lemma_id_seq();
        assert(groups.id_seq().take(count as int) =~= groups.id_seq());
        assert forall|g: u64| #[trigger] sorted@.contains(g) <==> group(pairs, g).len() > 0 by {
            assert(sorted@.to_set().contains(g) <==> groups.id_seq().to_set().contains(g));
            assert(groups.id_seq().contains(g) <==> groups@.contains_key(g));
        }
    }
    sorted
}

/// Expands the gadgets of a window and the gadgets outside it whose errors reach into
/// it. `None` if something about them is not known.
pub fn expand_window(scene: &SceneRef, gids: &Vec<u64>) -> (program: Option<Vec<ExpandedGadget>>)
    requires
        scene.wf(),
    ensures
        program matches Some(list) ==> is_window_program(scene@, gids@, gadgets_view(list@)),
        program is None ==> forall|other: Seq<GadgetView>| !#[trigger] is_window_program(scene@, gids@, other),
{
    let mut list: Vec<ExpandedGadget> = Vec::new();
    let mut n: usize = 0;
    assert(gadgets_view(list@) =~= Seq::<GadgetView>::empty());
    while n < gids.len()
        invariant
            n <= gids@.len(),
            scene.wf(),
            gadgets_in(scene@, gids@, n as int) == Some(gadgets_view(list@)),
        decreases gids@.len() - n,
    {
        proof {
            if gadgets_in(scene@, gids@, n as int + 1) is None {
                lemma_gadgets_settle(scene@, gids@, n as int + 1, gids@.len() as int);
            }
        }
        let Some(expanded) = expand_gadget(scene, gids[n]) else {
            return None;
        };
        let ghost before = list@;
        list.push(expanded);
        assert(gadgets_view(list@) =~= gadgets_view(before).push(gadget_view(expanded)));
        n += 1;
    }
    let ghost inside = gadgets_view(list@);
    let eids = collect_referring(scene, gids);
    let Some(groups) = group_outside(scene, &eids) else {
        return None;
    };
    let ghost pairs = outside_pairs(scene@, eids@, eids@.len() as int)->0;
    let owners = sorted_owners(&groups, Ghost(pairs));
    let mut k: usize = 0;
    assert(inside + Seq::<GadgetView>::empty() =~= inside);
    while k < owners.len()
        invariant
            k <= owners@.len(),
            scene.wf(),
            groups.wf(),
            grouped(groups@, pairs),
            are_owners(owners@, pairs),
            gadgets_in(scene@, gids@, gids@.len() as int) == Some(inside),
            eids@ == referring(scene@, gids@, gids@.len() as int),
            outside_pairs(scene@, eids@, eids@.len() as int) == Some(pairs),
            outside_gadgets(scene@, owners@, pairs, k as int) is Some,
            gadgets_view(list@) == inside + outside_gadgets(scene@, owners@, pairs, k as int)->0,
        decreases owners@.len() - k,
    {
        let gid: u64 = owners[k];
        proof {
            assert(owners@.contains(gid));
            assert(groups@.contains_key(gid));
            if outside_gadgets(scene@, owners@, pairs, k as int + 1) is None {
                lemma_outside_settle(scene@, owners@, pairs, k as int + 1, owners@.len() as int);
                assert forall|other: Seq<GadgetView>| !#[trigger] is_window_program(scene@, gids@, other) by {
                    if is_window_program(scene@, gids@, other) {
                        let o = choose|o: Seq<u64>| #[trigger] is_program_with(scene@, gids@, o, other);
                        lemma_owners_unique(o, owners@, pairs);
                    }
                }
            }
        }
        let own = groups.get(gid).unwrap();
        let Some(gadget) = scene.gadgets.get(gid) else {
            return None;
        };
        let Some(error_models) = expand_error_models(scene, gid, own) else {
            return None;
        };
        let expanded = ExpandedGadget {
            gid,
            gtype: gadget.instance.gtype,
            inputs: list_inputs(gadget),
            outputs: copy_vec(&gadget.outputs),
            check_model: None,
            error_models,
        };
        let ghost before = list@;
        list.push(expanded);
        proof {
            assert(gadget_view(expanded) =~= outside_gadget(scene@, gid, group(pairs, gid))->0);
            assert(gadgets_view(list@) =~= gadgets_view(before).push(gadget_view(expanded)));
            assert(gadgets_view(list@) =~= inside + outside_gadgets(scene@, owners@, pairs, k as int + 1)->0);
        }
        k += 1;
    }
    assert(is_program_with(scene@, gids@, owners@, gadgets_view(list@)));
    Some(list)
}

/// A committed gadget contributes no errors to any window.
pub proof fn law_committed_gadget_contributes_no_errors(scene: Scene, gid: u64)
    requires
        scene.gadgets.contains_key(gid),
        scene.gadgets[gid].state == GadgetState::Committed,
        gadget_in(scene, gid) is Some,
    ensures
        gadget_in(scene, gid)->0.error_models == Seq::<ErrorModelView>::empty(),
{
}

/// A gadget outside the window that contributes errors is neither in the window nor
/// committed, and each of its error models refers into the window.
pub proof fn law_outside_errors_are_uncommitted(scene: Scene, eids: Seq<u64>, n: int, k: int)
    requires
        0 <= n <= eids.len(),
        outside_pairs(scene, eids, n) is Some,
        0 <= k < outside_pairs(scene, eids, n)->0.len(),
    ensures
        ({
            let (owner, eid) = outside_pairs(scene, eids, n)->0[k];
            &&& !scene.window.contains(owner)
            &&& scene.gadgets.contains_key(owner)
            &&& scene.gadgets[owner].state != GadgetState::Committed
            &&& owner_of(scene, eid) == Some(owner)
            &&& eids.contains(eid)
        }),
    decreases n,
{
    if n > 0 {
        let before = outside_pairs(scene, eids, n - 1)->0;
        if k < before.len() {
            law_outside_errors_are_uncommitted(scene, eids, n - 1, k);
        } else {
            assert(eids.contains(eids[n - 1]));
        }
    }
}

proof fn lemma_gadgets_listed(scene: Scene, gids: Seq<u64>, n: int, i: int)
    requires
        gadgets_in(scene, gids, n) is Some,
        0 <= n,
    ensures
        gadgets_in(scene, gids, n)->0.len() == n,
        0 <= i < n ==> gadget_in(scene, gids[i]) == Some(gadgets_in(scene, gids, n)->0[i]),
    decreases n,
{
    if n > 0 {
        lemma_gadgets_listed(scene, gids, n - 1, i);
    }
}

proof fn lemma_error_models_listed(scene: Scene, gid: u64, eids: Seq<u64>, n: int, k: int)
    requires
        error_models_in(scene, gid, eids, n) is Some,
        0 <= n,
    ensures
        error_models_in(scene, gid, eids, n)->0.len() == n,
        0 <= k < n ==> error_model_in(scene, gid, eids[k]) == Some(error_models_in(scene, gid, eids, n)->0[k]),
    decreases n,
{
    if n > 0 {
        lemma_error_models_listed(scene, gid, eids, n - 1, k);
    }
}

/// The first part of the program of a window is the gadgets of the window, in order, as they
/// are connected. A gadget with a check model brings all checks of its type; one that is
/// not committed brings all error models attached to the check model.
pub proof fn law_window_program_describes_its_gadgets(scene: Scene, gids: Seq<u64>, program: Seq<GadgetView>, i: int, k: int)
    requires
        is_window_program(scene, gids, program),
        0 <= i < gids.len(),
        0 <= k,
    ensures
        ({
            let gadget = scene.gadgets[gids[i]];
            let view = program[i];
            &&& program.len() >= gids.len()
            &&& view.gid == gids[i]
            &&& view.gtype == gadget.instance.gtype
            &&& view.inputs == gadget.instance.connectors@.map_values(|c: Connector| Some(c))
            &&& view.outputs == gadget.outputs@
            &&& match gadget.binding_cid {
                None => view.check_model is None && view.error_models.len() == 0,
                Some(cid) => {
                    let model = scene.check_models[cid];
                    &&& view.check_model matches Some(cm)
                    &&& cm.cid == cid
                    &&& cm.ctype == model.instance.ctype
                    &&& cm.remote_gadgets == model.expanded_remote_gadgets->0@
                    &&& cm.count_checks == scene.check_model_types[model.instance.ctype].checks@.len()
                    &&& gadget.state == GadgetState::Committed ==> view.error_models.len() == 0
                    &&& gadget.state != GadgetState::Committed ==> view.error_models.len() == model.attaching_eid_vec@.len()
                    &&& gadget.state != GadgetState::Committed && k < model.attaching_eid_vec@.len() ==> {
                        let eid = model.attaching_eid_vec@[k];
                        &&& view.error_models[k].eid == eid
                        &&& view.error_models[k].etype == scene.error_models[eid].instance.etype
                        &&& view.error_models[k].remote_check_models.len()
                            == scene.error_models[eid].modified_remote_check_models@.len()
                    }
                },
            }
        }),
{
    let owners = choose|owners: Seq<u64>| #[trigger] is_program_with(scene, gids, owners, program);
    lemma_gadgets_listed(scene, gids, gids.len() as int, i);
    assert(gadget_in(scene, gids[i]) == Some(program[i]));
    let gadget = scene.gadgets[gids[i]];
    if let Some(cid) = gadget.binding_cid {
        if gadget.state != GadgetState::Committed {
            let eids = scene.check_models[cid].attaching_eid_vec@;
            lemma_error_models_listed(scene, gids[i], eids, eids.len() as int, k);
        }
    }
}

/// A slot of an error model in a window holds the check model that the slot names, or the
/// one bound to the gadget that the slot leads to inside the window, and nothing otherwise.
pub proof fn law_window_error_model_sees_the_window(scene: Scene, gid: u64, eid: u64, ri: int)
    requires
        error_model_in(scene, gid, eid) is Some,
        0 <= ri < scene.error_models[eid].modified_remote_check_models@.len(),
    ensures
        ({
            let slots = check_model_slots(scene.error_models[eid].modified_remote_check_models@);
            let seen = error_model_in(scene, gid, eid)->0.remote_check_models[ri];
            match window_reach_of(scene.gadgets, scene.window, slots, gid, ri) {
                WindowReach::To(Target::CheckModel(cid)) => seen == Some(cid),
                WindowReach::To(Target::Gadget(to)) => seen is Some && seen == scene.gadgets[to].binding_cid,
                WindowReach::Removed => seen is None,
                WindowReach::Outside => seen is None,
                WindowReach::Fault => false,
            }
        }),
{
    let model = scene.error_models[eid];
    let slots = check_model_slots(model.modified_remote_check_models@);
    assert(window_slot_valid(scene.gadgets, window_reach_of(scene.gadgets, scene.window, slots, gid, ri)));
}

proof fn lemma_referring_members(scene: Scene, gids: Seq<u64>, n: int, eid: u64)
    requires
        0 <= n <= gids.len(),
    ensures
        referring(scene, gids, n).contains(eid) <==> exists|i: int|
            0 <= i < n && scene.gadgets[#[trigger] gids[i]].binding_cid is Some
                && scene.check_models[scene.gadgets[gids[i]].binding_cid->0].referring_eids@.contains(eid),
    decreases n,
{
    if n > 0 {
        lemma_referring_members(scene, gids, n - 1, eid);
        let before = referring(scene, gids, n - 1);
        let all = referring(scene, gids, n);
        if let Some(cid) = scene.gadgets[gids[n - 1]].binding_cid {
            let more = scene.check_models[cid].referring_eids@;
            assert(all == before + more);
            if all.contains(eid) {
                let k = all.index_of(eid);
                if k < before.len() {
                    assert(before[k] == eid);
                } else {
                    assert(more[k - before.len()] == eid);
                }
            }
            if before.contains(eid) {
                assert(all[before.index_of(eid)] == eid);
            }
            if more.contains(eid) {
                assert(all[before.len() + more.index_of(eid)] == eid);
            }
        }
        if exists|i: int|
            0 <= i < n && scene.gadgets[#[trigger] gids[i]].binding_cid is Some
                && scene.check_models[scene.gadgets[gids[i]].binding_cid->0].referring_eids@.contains(eid) {
            let i = choose|i: int|
                0 <= i < n && scene.gadgets[#[trigger] gids[i]].binding_cid is Some
                    && scene.check_models[scene.gadgets[gids[i]].binding_cid->0].referring_eids@.contains(eid);
            if i < n - 1 {
                assert(before.contains(eid));
            }
        }
    }
}

proof fn lemma_outside_pairs_members(scene: Scene, eids: Seq<u64>, n: int, owner: u64, eid: u64)
    requires
        0 <= n <= eids.len(),
        outside_pairs(scene, eids, n) is Some,
    ensures
        outside_pairs(scene, eids, n)->0.contains((owner, eid)) <==> eids.take(n).contains(eid) && owner_of(scene, eid) == Some(
            owner,
        ) && !scene.window.contains(owner) && scene.gadgets[owner].state != GadgetState::Committed,
    decreases n,
{
    if n > 0 {
        lemma_outside_pairs_members(scene, eids, n - 1, owner, eid);
        let (before, after) = (outside_pairs(scene, eids, n - 1)->0, outside_pairs(scene, eids, n)->0);
        let (less, more) = (eids.take(n - 1), eids.take(n));
        assert(more =~= less.push(eids[n - 1]));
        if less.contains(eid) {
            assert(more[less.index_of(eid)] == eid);
        }
        if more.contains(eid) && eid != eids[n - 1] {
            let k = more.index_of(eid);
            assert(less[k] == eid);
        }
        if eid == eids[n - 1] {
            assert(more[n - 1] == eid);
        }
        if after.len() > before.len() {
            if before.contains((owner, eid)) {
                assert(after[before.index_of((owner, eid))] == (owner, eid));
            }
            if after.contains((owner, eid)) {
                let k = after.index_of((owner, eid));
                if k < before.len() {
                    assert(before[k] == (owner, eid));
                }
            }
            assert(after[before.len() as int] == after.last());
        }
    } else {
        assert(eids.take(n) =~= Seq::<u64>::empty());
    }
}

proof fn lemma_group_members(pairs: Seq<(u64, u64)>, owner: u64, eid: u64)
    ensures
        group(pairs, owner).contains(eid) <==> pairs.contains((owner, eid)),
    decreases pairs.len(),
{
    if pairs.len() > 0 {
        let rest = pairs.drop_last();
        lemma_group_members(rest, owner, eid);
        let (before, after) = (group(rest, owner), group(pairs, owner));
        if rest.contains((owner, eid)) {
            assert(pairs[rest.index_of((owner, eid))] == (owner, eid));
        }
        if pairs.contains((owner, eid)) {
            let k = pairs.index_of((owner, eid));
            if k < rest.len() {
                assert(rest[k] == (owner, eid));
            }
        }
        if pairs.last().0 == owner {
            assert(after[before.len() as int] == pairs.last().1);
            assert(pairs[pairs.len() - 1] == pairs.last());
            if before.contains(eid) {
                assert(after[before.index_of(eid)] == eid);
            }
            if after.contains(eid) {
                let k = after.index_of(eid);
                if k < before.len() {
                    assert(before[k] == eid);
                }
            }
        }
    }
}

proof fn lemma_outside_gadgets_listed(scene: Scene, owners: Seq<u64>, pairs: Seq<(u64, u64)>, n: int, i: int)
    requires
        outside_gadgets(scene, owners, pairs, n) is Some,
        0 <= n,
    ensures
        outside_gadgets(scene, owners, pairs, n)->0.len() == n,
        0 <= i < n ==> outside_gadget(scene, owners[i], group(pairs, owners[i])) == Some(
            outside_gadgets(scene, owners, pairs, n)->0[i],
        ),
    decreases n,
{
    if n > 0 {
        lemma_outside_gadgets_listed(scene, owners, pairs, n - 1, i);
    }
}

/// Behind its own gadgets, the program of a window has the gadgets outside that bring error
/// models only. An error model is there exactly if it refers to a check model of the window
/// and belongs to a gadget outside that is not committed.
pub proof fn law_window_program_has_the_outside_error_models(
    scene: Scene,
    gids: Seq<u64>,
    program: Seq<GadgetView>,
    owner: u64,
    eid: u64,
)
    requires
        is_window_program(scene, gids, program),
    ensures
        (exists|i: int, k: int|
            gids.len() <= i < program.len() && 0 <= k < program[i].error_models.len() && program[i].gid == owner && (
            #[trigger] program[i].error_models[k]).eid == eid) <==> {
            &&& exists|j: int|
                0 <= j < gids.len() && scene.gadgets[#[trigger] gids[j]].binding_cid is Some
                    && scene.check_models[scene.gadgets[gids[j]].binding_cid->0].referring_eids@.contains(eid)
            &&& scene.error_models.contains_key(eid)
            &&& scene.check_models.contains_key(scene.error_models[eid].instance.cid)
            &&& scene.check_models[scene.error_models[eid].instance.cid].instance.gid == owner
            &&& !scene.window.contains(owner)
            &&& scene.gadgets[owner].state != GadgetState::Committed
        },
        forall|i: int| gids.len() <= i < program.len() ==> (#[trigger] program[i]).check_model is None,
{
    let owners = choose|owners: Seq<u64>| #[trigger] is_program_with(scene, gids, owners, program);
    let g = gids.len() as int;
    let eids = referring(scene, gids, g);
    let pairs = outside_pairs(scene, eids, eids.len() as int)->0;
    let outside = outside_gadgets(scene, owners, pairs, owners.len() as int)->0;
    lemma_gadgets_listed(scene, gids, g, 0);
    lemma_referring_members(scene, gids, g, eid);
    assert(eids.take(eids.len() as int) =~= eids);
    lemma_outside_pairs_members(scene, eids, eids.len() as int, owner, eid);
    lemma_group_members(pairs, owner, eid);
    lemma_outside_gadgets_listed(scene, owners, pairs, owners.len() as int, 0);
    assert forall|i: int| g <= i < program.len() implies (#[trigger] program[i]).check_model is None by {
        lemma_outside_gadgets_listed(scene, owners, pairs, owners.len() as int, i - g);
        assert(program[i] == outside[i - g]);
    }
    if pairs.contains((owner, eid)) {
        let list = group(pairs, owner);
        assert(owners.contains(owner));
        let o = owners.index_of(owner);
        lemma_outside_gadgets_listed(scene, owners, pairs, owners.len() as int, o);
        let k = list.index_of(eid);
        lemma_error_models_listed(scene, owner, list, list.len() as int, k);
        assert(program[g + o] == outside[o]);
        assert(program[g + o].error_models[k].eid == eid);
    }
    if exists|i: int, k: int|
        g <= i < program.len() && 0 <= k < program[i].error_models.len() && program[i].gid == owner && (
        #[trigger] program[i].error_models[k]).eid == eid {
        let (i, k) = choose|i: int, k: int|
            g <= i < program.len() && 0 <= k < program[i].error_models.len() && program[i].gid == owner && (
            #[trigger] program[i].error_models[k]).eid == eid;
        lemma_outside_gadgets_listed(scene, owners, pairs, owners.len() as int, i - g);
        assert(program[i] == outside[i - g]);
        let list = group(pairs, owner);
        lemma_error_models_listed(scene, owner, list, list.len() as int, k);
        assert(list[k] == eid);
        assert(list.contains(eid));
    }
}

} // verus!
