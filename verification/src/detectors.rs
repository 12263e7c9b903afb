//! Check values: the parity of the measurements of a check, its natural flip
//! included.
use crate::bin::{checks_view, Check, CheckModelType, CheckSpec, RemoteMeasurement};
use crate::bit_vector::{bit_if_any, set_bit, try_get_bit, zeros, BitVector};
use crate::network::{CheckModel, Gadget};
use crate::registry::Registry;
use vstd::prelude::*;

verus! {

/// Outcome `index` of a gadget, if it has arrived.
pub open spec fn outcome_bit(gadget: Gadget, index: int) -> Option<bool> {
    match gadget.outcomes {
        Some(bits) => bit_if_any(bits, index),
        None => None,
    }
}

/// The value of a measurement of a check model of gadget `owner`, if it is known: an
/// outcome of the owner, or the biased outcome of the gadget that a remote slot
/// stands for.
pub open spec fn measurement_value(
    gadgets: Map<u64, Gadget>,
    owner: Gadget,
    check_model: CheckModel,
    m: RemoteMeasurement,
) -> Option<bool> {
    match m.remote_gadget {
        None => outcome_bit(owner, m.measurement_index as int),
        Some(ri) => match check_model.expanded_remote_gadgets {
            Some(expanded) => if ri < expanded@.len() && ri < check_model.modified_remote_gadgets@.len() {
                match (expanded@[ri as int], check_model.modified_remote_gadgets@[ri as int]) {
                    (Some(gid), Some(slot)) => if gadgets.contains_key(gid) {
                        outcome_bit(gadgets[gid], m.measurement_index + slot.measurement_bias)
                    } else {
                        None
                    },
                    _ => None,
                }
            } else {
                None
            },
            None => None,
        },
    }
}

/// The parity of the first `n` measurements of a check and its natural flip, if all
/// of them are known.
pub open spec fn check_value(
    gadgets: Map<u64, Gadget>,
    owner: Gadget,
    check_model: CheckModel,
    check: CheckSpec,
    n: int,
) -> Option<bool>
    decreases n,
{
    if n <= 0 {
        Some(check.naturally_flipped)
    } else {
        match (
            check_value(gadgets, owner, check_model, check, n - 1),
            measurement_value(gadgets, owner, check_model, check.measurements[n - 1]),
        ) {
            (Some(parity), Some(bit)) => Some(parity != bit),
            _ => None,
        }
    }
}

/// The value of check `i`, if it is known.
pub open spec fn detector_value(
    gadgets: Map<u64, Gadget>,
    owner: Gadget,
    check_model: CheckModel,
    checks: Seq<CheckSpec>,
    i: int,
) -> Option<bool> {
    check_value(gadgets, owner, check_model, checks[i], checks[i].measurements.len() as int)
}

/// The values of a list of checks.
pub open spec fn are_detectors(
    gadgets: Map<u64, Gadget>,
    owner: Gadget,
    check_model: CheckModel,
    checks: Seq<CheckSpec>,
    bits: Seq<bool>,
) -> bool {
    &&& bits.len() == checks.len()
    &&& forall|i: int|
        0 <= i < checks.len() ==> (#[trigger] detector_value(gadgets, owner, check_model, checks, i)) == Some(bits[i])
}

/// Whether every check value is known.
pub open spec fn detectors_known(
    gadgets: Map<u64, Gadget>,
    owner: Gadget,
    check_model: CheckModel,
    checks: Seq<CheckSpec>,
) -> bool {
    forall|i: int| 0 <= i < checks.len() ==> (#[trigger] detector_value(gadgets, owner, check_model, checks, i)) is Some
}

/// A check model with the gadgets that its slots stand for.
pub open spec fn expanded_as(check_model: CheckModel, expanded: Option<Vec<Option<u64>>>) -> CheckModel {
    CheckModel { expanded_remote_gadgets: expanded, ..check_model }
}

/// Reads one measurement.
fn read_measurement(
    gadgets: &Registry<Gadget>,
    owner: &Gadget,
    check_model: &CheckModel,
    expanded: &Option<Vec<Option<u64>>>,
    m: RemoteMeasurement,
) -> (bit: Option<bool>)
    requires
        gadgets.wf(),
    ensures
        bit == measurement_value(gadgets@, *owner, expanded_as(*check_model, *expanded), m),
{
    match m.remote_gadget {
        None => match &owner.outcomes {
            Some(bits) => try_get_bit(bits, m.measurement_index),
            None => None,
        },
        Some(ri) => {
            let Some(expanded) = expanded else {
                return None;
            };
            if ri >= expanded.len() as u64 || ri >= check_model.modified_remote_gadgets.len() as u64 {
                return None;
            }
            let Some(gid) = expanded[ri as usize] else {
                return None;
            };
            let Some(slot) = check_model.modified_remote_gadgets[ri as usize] else {
                return None;
            };
            let Some(gadget) = gadgets.get(gid) else {
                return None;
            };
            let Some(bits) = &gadget.outcomes else {
                return None;
            };
            match m.measurement_index.checked_add(slot.measurement_bias) {
                Some(index) => try_get_bit(bits, index),
                None => None,
            }
        },
    }
}

/// Computes one check value.
fn read_check(
    gadgets: &Registry<Gadget>,
    owner: &Gadget,
    check_model: &CheckModel,
    expanded: &Option<Vec<Option<u64>>>,
    check: &Check,
) -> (value: Option<bool>)
    requires
        gadgets.wf(),
    ensures
        value == check_value(
            gadgets@,
            *owner,
            expanded_as(*check_model, *expanded),
            check@,
            check.measurements@.len() as int,
        ),
{
    let ghost model = expanded_as(*check_model, *expanded);
    let mut is_defect = check.naturally_flipped;
    let mut i: usize = 0;
    while i < check.measurements.len()
        invariant
            gadgets.wf(),
            i <= check.measurements@.len(),
            model == expanded_as(*check_model, *expanded),
            check_value(gadgets@, *owner, model, check@, i as int) == Some(is_defect),
        decreases check.measurements@.len() - i,
    {
        match read_measurement(gadgets, owner, check_model, expanded, check.measurements[i]) {
            Some(bit) => {
                is_defect = is_defect != bit;
            },
            None => {
                proof {
                    lemma_unknown_measurement(gadgets@, *owner, model, check@, i as int, check.measurements@.len() as int);
                }
                return None;
            },
        }
        i += 1;
    }
    Some(is_defect)
}

proof fn lemma_unknown_measurement(
    gadgets: Map<u64, Gadget>,
    owner: Gadget,
    check_model: CheckModel,
    check: CheckSpec,
    i: int,
    n: int,
)
    requires
        0 <= i < n,
        measurement_value(gadgets, owner, check_model, check.measurements[i]) is None,
    ensures
        check_value(gadgets, owner, check_model, check, n) is None,
    decreases n,
{
    if n - 1 > i {
        lemma_unknown_measurement(gadgets, owner, check_model, check, i, n - 1);
    }
}

/// Computes the values of all checks of a check model of gadget `owner`; `None` if
/// one of them is not known.
pub fn check_values(
    gadgets: &Registry<Gadget>,
    owner: &Gadget,
    check_model: &CheckModel,
    checks: &Vec<Check>,
) -> (values: Option<BitVector>)
    requires
        gadgets.wf(),
    ensures
        values is Some <==> detectors_known(gadgets@, *owner, *check_model, checks_view(checks@)),
        values matches Some(bits) ==> bits.wf() && bits.padded() && are_detectors(
            gadgets@,
            *owner,
            *check_model,
            checks_view(checks@),
            bits@,
        ),
{
    assert(expanded_as(*check_model, check_model.expanded_remote_gadgets) == *check_model);
    check_values_with(gadgets, owner, check_model, &check_model.expanded_remote_gadgets, checks)
}

/// Computes the values of all checks of a check model whose slots stand for the listed
/// gadgets; `None` if one of them is not known.
pub fn check_values_with(
    gadgets: &Registry<Gadget>,
    owner: &Gadget,
    check_model: &CheckModel,
    expanded: &Option<Vec<Option<u64>>>,
    checks: &Vec<Check>,
) -> (values: Option<BitVector>)
    requires
        gadgets.wf(),
    ensures
        values is Some <==> detectors_known(gadgets@, *owner, expanded_as(*check_model, *expanded), checks_view(checks@)),
        values matches Some(bits) ==> bits.wf() && bits.padded() && are_detectors(
            gadgets@,
            *owner,
            expanded_as(*check_model, *expanded),
            checks_view(checks@),
            bits@,
        ),
{
    let ghost specs = checks_view(checks@);
    let ghost model = expanded_as(*check_model, *expanded);
    let mut bits = zeros(checks.len() as u64);
    let mut i: usize = 0;
    while i < checks.len()
        invariant
            gadgets.wf(),
            specs == checks_view(checks@),
            model == expanded_as(*check_model, *expanded),
            i <= checks@.len(),
            bits.wf(),
            bits.padded(),
            bits.size == checks@.len(),
            forall|k: int|
                0 <= k < i ==> (#[trigger] detector_value(gadgets@, *owner, model, specs, k)) == Some(bits@[k]),
        decreases checks@.len() - i,
    {
        assert(specs[i as int] == checks@[i as int]@);
        match read_check(gadgets, owner, check_model, expanded, &checks[i]) {
            Some(value) => {
                set_bit(&mut bits, i as u64, value);
            },
            None => {
                assert(detector_value(gadgets@, *owner, model, specs, i as int) is None);
                return None;
            },
        }
        i += 1;
    }
    Some(bits)
}

/// The check model bound to a gadget, if both exist.
pub open spec fn bound_check_model(
    gadgets: Map<u64, Gadget>,
    check_models: Map<u64, CheckModel>,
    gid: u64,
) -> Option<CheckModel> {
    if gadgets.contains_key(gid) && gadgets[gid].binding_cid is Some && check_models.contains_key(
        gadgets[gid].binding_cid->0,
    ) {
        Some(check_models[gadgets[gid].binding_cid->0])
    } else {
        None
    }
}

/// The finished detectors of one gadget: the check values of its check model. A
/// gadget that does not exist, or has no check model, has no detectors. `None` if the
/// type of the check model is unknown, or a check value is.
pub fn get_gadget_detectors(
    gid: u64,
    check_model_types: &Registry<CheckModelType>,
    gadgets: &Registry<Gadget>,
    check_models: &Registry<CheckModel>,
) -> (detectors: Option<BitVector>)
    requires
        check_model_types.wf(),
        gadgets.wf(),
        check_models.wf(),
    ensures
        match bound_check_model(gadgets@, check_models@, gid) {
            None => detectors matches Some(bits) && bits.wf() && bits@ == Seq::<bool>::empty(),
            Some(cm) => {
                let known = check_model_types@.contains_key(cm.instance.ctype) && detectors_known(
                    gadgets@,
                    gadgets@[gid],
                    cm,
                    checks_view(check_model_types@[cm.instance.ctype].checks@),
                );
                &&& detectors is Some <==> known
                &&& detectors matches Some(bits) ==> bits.wf() && are_detectors(
                    gadgets@,
                    gadgets@[gid],
                    cm,
                    checks_view(check_model_types@[cm.instance.ctype].checks@),
                    bits@,
                )
            },
        },
{
    let empty = zeros(0);
    assert(empty@ =~= Seq::<bool>::empty());
    let Some(gadget) = gadgets.get(gid) else {
        return Some(empty);
    };
    let Some(cid) = gadget.binding_cid else {
        return Some(empty);
    };
    let Some(check_model) = check_models.get(cid) else {
        return Some(empty);
    };
    let Some(check_model_type) = check_model_types.get(check_model.instance.ctype) else {
        return None;
    };
    check_values(gadgets, gadget, check_model, &check_model_type.checks)
}

/// Check values are a function of the outcomes: gadgets that differ in anything but
/// outcomes have the same detectors.
pub proof fn law_detectors_depend_on_outcomes_only(
    before: Map<u64, Gadget>,
    after: Map<u64, Gadget>,
    owner_before: Gadget,
    owner_after: Gadget,
    check_model: CheckModel,
    check: CheckSpec,
    n: int,
)
    requires
        before.dom() == after.dom(),
        forall|gid: u64| #[trigger] before.contains_key(gid) ==> before[gid].outcomes == after[gid].outcomes,
        owner_before.outcomes == owner_after.outcomes,
    ensures
        check_value(before, owner_before, check_model, check, n) == check_value(after, owner_after, check_model, check, n),
    decreases n,
{
    if n > 0 {
        law_detectors_depend_on_outcomes_only(before, after, owner_before, owner_after, check_model, check, n - 1);
        let m = check.measurements[n - 1];
        assert(measurement_value(before, owner_before, check_model, m) == measurement_value(
            after,
            owner_after,
            check_model,
            m,
        ));
    }
}

/// A detector is the parity of the outcomes that its check reads, its natural flip
/// included: the outcomes of the owning gadget, and the outcomes of remote gadgets counted
/// from the bias of the slot.
pub proof fn law_detector_is_the_parity_of_its_outcomes(
    gadgets: Map<u64, Gadget>,
    owner: Gadget,
    check_model: CheckModel,
    checks: Seq<CheckSpec>,
    i: int,
)
    requires
        detector_value(gadgets, owner, check_model, checks, i) is Some,
    ensures
        detector_value(gadgets, owner, check_model, checks, i)->0 == (checks[i].naturally_flipped != (
        checks[i].measurements.filter(
            |m: RemoteMeasurement|
                match m.remote_gadget {
                    None => owner.outcomes->0@[m.measurement_index as int],
                    Some(ri) => gadgets[check_model.expanded_remote_gadgets->0@[ri as int]->0].outcomes->0@[m.measurement_index
                        + check_model.modified_remote_gadgets@[ri as int]->0.measurement_bias],
                },
        ).len() % 2 == 1)),
{
    let check = checks[i];
    lemma_check_counts(gadgets, owner, check_model, check, check.measurements.len() as int);
    assert(check.measurements.take(check.measurements.len() as int) =~= check.measurements);
}

proof fn lemma_check_counts(gadgets: Map<u64, Gadget>, owner: Gadget, check_model: CheckModel, check: CheckSpec, n: int)
    requires
        0 <= n <= check.measurements.len(),
        check_value(gadgets, owner, check_model, check, n) is Some,
    ensures
        check_value(gadgets, owner, check_model, check, n)->0 == (check.naturally_flipped != (check.measurements.take(
            n,
        ).filter(
            |m: RemoteMeasurement|
                match m.remote_gadget {
                    None => owner.outcomes->0@[m.measurement_index as int],
                    Some(ri) => gadgets[check_model.expanded_remote_gadgets->0@[ri as int]->0].outcomes->0@[m.measurement_index
                        + check_model.modified_remote_gadgets@[ri as int]->0.measurement_bias],
                },
        ).len() % 2 == 1)),
    decreases n,
{
    reveal(Seq::filter);
    let set = |m: RemoteMeasurement|
        match m.remote_gadget {
            None => owner.outcomes->0@[m.measurement_index as int],
            Some(ri) => gadgets[check_model.expanded_remote_gadgets->0@[ri as int]->0].outcomes->0@[m.measurement_index
                + check_model.modified_remote_gadgets@[ri as int]->0.measurement_bias],
        };
    let (before, after) = (check.measurements.take(n - 1), check.measurements.take(n));
    if n > 0 {
        lemma_check_counts(gadgets, owner, check_model, check, n - 1);
        let m = check.measurements[n - 1];
        assert(after.drop_last() =~= before);
        assert(after.last() == m);
        assert(measurement_value(gadgets, owner, check_model, m) == Some(set(m)));
        assert(after.filter(set).len() == before.filter(set).len() + (if set(m) {
            1int
        } else {
            0int
        }));
    } else {
        assert(after =~= Seq::<RemoteMeasurement>::empty());
    }
}

/// A detector is known exactly if every outcome that its check reads has arrived.
pub proof fn law_detector_waits_for_its_outcomes(
    gadgets: Map<u64, Gadget>,
    owner: Gadget,
    check_model: CheckModel,
    checks: Seq<CheckSpec>,
    i: int,
)
    requires
        forall|gid: u64| #[trigger]
            gadgets.contains_key(gid) && gadgets[gid].outcomes is Some ==> gadgets[gid].outcomes->0.wf(),
        owner.outcomes is Some ==> owner.outcomes->0.wf(),
    ensures
        detector_value(gadgets, owner, check_model, checks, i) is Some <==> forall|k: int|
            0 <= k < checks[i].measurements.len() ==> match (#[trigger] checks[i].measurements[k]).remote_gadget {
                None => owner.outcomes is Some && checks[i].measurements[k].measurement_index < owner.outcomes->0.size,
                Some(ri) => {
                    &&& check_model.expanded_remote_gadgets is Some
                    &&& ri < check_model.expanded_remote_gadgets->0@.len()
                    &&& ri < check_model.modified_remote_gadgets@.len()
                    &&& check_model.expanded_remote_gadgets->0@[ri as int] is Some
                    &&& check_model.modified_remote_gadgets@[ri as int] is Some
                    &&& gadgets.contains_key(check_model.expanded_remote_gadgets->0@[ri as int]->0)
                    &&& gadgets[check_model.expanded_remote_gadgets->0@[ri as int]->0].outcomes is Some
                    &&& checks[i].measurements[k].measurement_index
                        + check_model.modified_remote_gadgets@[ri as int]->0.measurement_bias
                        < gadgets[check_model.expanded_remote_gadgets->0@[ri as int]->0].outcomes->0.size
                },
            },
{
    lemma_check_known(gadgets, owner, check_model, checks[i], checks[i].measurements.len() as int);
}

proof fn lemma_check_known(gadgets: Map<u64, Gadget>, owner: Gadget, check_model: CheckModel, check: CheckSpec, n: int)
    requires
        0 <= n <= check.measurements.len(),
        forall|gid: u64| #[trigger]
            gadgets.contains_key(gid) && gadgets[gid].outcomes is Some ==> gadgets[gid].outcomes->0.wf(),
        owner.outcomes is Some ==> owner.outcomes->0.wf(),
    ensures
        check_value(gadgets, owner, check_model, check, n) is Some <==> forall|k: int|
            0 <= k < n ==> match (#[trigger] check.measurements[k]).remote_gadget {
                None => owner.outcomes is Some && check.measurements[k].measurement_index < owner.outcomes->0.size,
                Some(ri) => {
                    &&& check_model.expanded_remote_gadgets is Some
                    &&& ri < check_model.expanded_remote_gadgets->0@.len()
                    &&& ri < check_model.modified_remote_gadgets@.len()
                    &&& check_model.expanded_remote_gadgets->0@[ri as int] is Some
                    &&& check_model.modified_remote_gadgets@[ri as int] is Some
                    &&& gadgets.contains_key(check_model.expanded_remote_gadgets->0@[ri as int]->0)
                    &&& gadgets[check_model.expanded_remote_gadgets->0@[ri as int]->0].outcomes is Some
                    &&& check.measurements[k].measurement_index
                        + check_model.modified_remote_gadgets@[ri as int]->0.measurement_bias
                        < gadgets[check_model.expanded_remote_gadgets->0@[ri as int]->0].outcomes->0.size
                },
            },
    decreases n,
{
    if n > 0 {
        lemma_check_known(gadgets, owner, check_model, check, n - 1);
        let m = check.measurements[n - 1];
        match m.remote_gadget {
            None => {},
            Some(ri) => {
                if measurement_value(gadgets, owner, check_model, m) is Some {
                    let gid = check_model.expanded_remote_gadgets->0@[ri as int]->0;
                    assert(gadgets.contains_key(gid));
                }
            },
        }
    }
}

/// A gadget has the detectors of the check model bound to it, and none without one.
pub proof fn law_gadget_has_the_detectors_of_its_check_model(gadgets: Map<u64, Gadget>, check_models: Map<u64, CheckModel>, gid: u64, cid: u64)
    requires
        gadgets.contains_key(gid),
    ensures
        gadgets[gid].binding_cid == Some(cid) && check_models.contains_key(cid) ==> bound_check_model(
            gadgets,
            check_models,
            gid,
        ) == Some(check_models[cid]),
        gadgets[gid].binding_cid is None ==> bound_check_model(gadgets, check_models, gid) is None,
{
}

} // verus!
