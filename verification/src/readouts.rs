//! Raw readouts: the parities of measurement outcomes, before any correction.
use crate::bin::{GadgetType, Readout};
use crate::bit_vector::{law_flipped_bit_flips_parity, law_parity_counts_set_bits, parity, parity_at, BitVector};
use vstd::prelude::*;

verus! {

/// The raw readouts of a gadget.
pub open spec fn raw_readouts(readouts: Seq<Readout>, outcomes: Seq<bool>) -> Seq<bool> {
    readouts.map_values(|r: Readout| parity_at(outcomes, r.measurement_indices@))
}

/// Every readout refers to outcomes that there are.
pub open spec fn readable(readouts: Seq<Readout>, size: nat) -> bool {
    forall|i: int, k: int|
        0 <= i < readouts.len() && 0 <= k < readouts[i].measurement_indices@.len() ==> (
        #[trigger] readouts[i].measurement_indices@[k]) < size
}

/// Whether every readout refers to outcomes that there are.
pub fn can_read(gadget_type: &GadgetType, size: u64) -> (yes: bool)
    ensures
        yes == readable(gadget_type.readouts@, size as nat),
{
    let mut i: usize = 0;
    while i < gadget_type.readouts.len()
        invariant
            i <= gadget_type.readouts@.len(),
            forall|a: int, k: int|
                0 <= a < i && 0 <= k < gadget_type.readouts@[a].measurement_indices@.len() ==> (
                #[trigger] gadget_type.readouts@[a].measurement_indices@[k]) < size,
        decreases gadget_type.readouts@.len() - i,
    {
        let indices = &gadget_type.readouts[i].measurement_indices;
        let mut k: usize = 0;
        while k < indices.len()
            invariant
                i < gadget_type.readouts@.len(),
                *indices == gadget_type.readouts@[i as int].measurement_indices,
                k <= indices@.len(),
                forall|j: int| 0 <= j < k ==> (#[trigger] indices@[j]) < size,
            decreases indices@.len() - k,
        {
            if indices[k] >= size {
                assert(gadget_type.readouts@[i as int].measurement_indices@[k as int] >= size);
                return false;
            }
            k += 1;
        }
        i += 1;
    }
    true
}

/// Computes the raw readouts of a gadget.
pub fn compute_readouts(gadget_type: &GadgetType, outcomes: &BitVector) -> (readouts: Vec<bool>)
    requires
        outcomes.wf(),
        readable(gadget_type.readouts@, outcomes.size as nat),
    ensures
        readouts@ == raw_readouts(gadget_type.readouts@, outcomes@),
        readouts@.len() == gadget_type.readouts@.len(),
        forall|r: int|
            0 <= r < readouts@.len() ==> #[trigger] readouts@[r] == (gadget_type.readouts@[r].measurement_indices@.filter(
                |m: u64| outcomes@[m as int],
            ).len() % 2 == 1),
{
    let mut readouts: Vec<bool> = Vec::new();
    let mut i: usize = 0;
    while i < gadget_type.readouts.len()
        invariant
            i <= gadget_type.readouts@.len(),
            outcomes.wf(),
            readable(gadget_type.readouts@, outcomes.size as nat),
            readouts@ =~= raw_readouts(gadget_type.readouts@, outcomes@).take(i as int),
        decreases gadget_type.readouts@.len() - i,
    {
        assert forall|k: int| 0 <= k < gadget_type.readouts@[i as int].measurement_indices@.len() implies gadget_type.readouts@[i as int].measurement_indices@[k]
            < outcomes.size by {
        }
        readouts.push(parity(outcomes, &gadget_type.readouts[i].measurement_indices));
        i += 1;
    }
    assert(readouts@ =~= raw_readouts(gadget_type.readouts@, outcomes@));
    proof {
        assert forall|r: int| 0 <= r < readouts@.len() implies #[trigger] readouts@[r] == (
        gadget_type.readouts@[r].measurement_indices@.filter(|m: u64| outcomes@[m as int]).len() % 2 == 1) by {
            law_parity_counts_set_bits(outcomes@, gadget_type.readouts@[r].measurement_indices@);
        }
    }
    readouts
}

/// A readout is set exactly if an odd number of the outcomes that it lists are set.
pub proof fn law_readout_is_parity(readouts: Seq<Readout>, outcomes: Seq<bool>, r: int)
    requires
        0 <= r < readouts.len(),
    ensures
        raw_readouts(readouts, outcomes).len() == readouts.len(),
        raw_readouts(readouts, outcomes)[r] == (readouts[r].measurement_indices@.filter(|m: u64| outcomes[m as int]).len()
            % 2 == 1),
{
    law_parity_counts_set_bits(outcomes, readouts[r].measurement_indices@);
}

/// Inverting one outcome inverts exactly those readouts that list it an odd number of
/// times.
pub proof fn law_flipped_outcome_flips_its_readouts(readouts: Seq<Readout>, outcomes: Seq<bool>, m: u64, r: int)
    requires
        0 <= r < readouts.len(),
        readable(readouts, outcomes.len()),
        m < outcomes.len(),
    ensures
        raw_readouts(readouts, outcomes.update(m as int, !outcomes[m as int]))[r] == (raw_readouts(readouts, outcomes)[r] != (
        readouts[r].measurement_indices@.filter(|k: u64| k == m).len() % 2 == 1)),
{
    let list = readouts[r].measurement_indices@;
    assert forall|k: int| 0 <= k < list.len() implies (#[trigger] list[k]) < outcomes.len() by {
        assert(readouts[r].measurement_indices@[k] < outcomes.len());
    }
    law_flipped_bit_flips_parity(outcomes, list, m);
}

/// Outcomes that are all zero give readouts that are all zero.
pub proof fn law_zero_outcomes_give_zero_readouts(readouts: Seq<Readout>, outcomes: Seq<bool>, r: int)
    requires
        0 <= r < readouts.len(),
        readable(readouts, outcomes.len()),
        forall|m: int| 0 <= m < outcomes.len() ==> !outcomes[m],
    ensures
        !raw_readouts(readouts, outcomes)[r],
{
    let list = readouts[r].measurement_indices@;
    assert forall|k: int| 0 <= k < list.len() implies (#[trigger] list[k]) < outcomes.len() by {
        assert(readouts[r].measurement_indices@[k] < outcomes.len());
    }
    if outcomes.len() > 0 {
        law_flipped_bit_flips_parity(outcomes, list, 0);
    } else if list.len() > 0 {
        assert(readouts[r].measurement_indices@[0] < outcomes.len());
    }
}

} // verus!
