//! Corrections of Pauli frames: what the fired mechanisms do to the output
//! observables and the readouts of the gadgets that own them.
use crate::bin::{errors_view, Error, ErrorModelType, ErrorSpec};
use crate::dem::{law_occurrences_are_counted, occurs_oddly};
use crate::hypergraph::ErrorIndex;
use crate::network::ErrorModel;
use crate::registry::Registry;
use crate::relative::RelativeMapping;
use binar::{Bitwise, BitwiseMut};
use vstd::prelude::*;

verus! {

/// `binar::BitVec`: a vector of bits.
#[verifier::external_type_specification]
#[verifier::external_body]
pub struct ExBitVec(binar::BitVec);

/// The bits of a vector.
pub uninterp spec fn bit_vec_contents(v: binar::BitVec) -> Seq<bool>;

/// `binar::BitVec::zeros`: the vector of `length` zero bits.
#[verifier::external_body]
pub(crate) fn bit_vec_zeros(length: usize) -> (v: binar::BitVec)
    ensures
        bit_vec_contents(v) == Seq::new(length as nat, |i: int| false),
{
    binar::BitVec::zeros(length)
}

/// `binar::BitVec::len`: how many bits the vector has.
#[verifier::external_body]
pub(crate) fn bit_vec_len(v: &binar::BitVec) -> (length: usize)
    ensures
        length == bit_vec_contents(*v).len(),
{
    v.len()
}

/// `binar::Bitwise::index` on a vector: the bit at an index in range.
#[verifier::external_body]
pub(crate) fn bit_vec_index(v: &binar::BitVec, index: usize) -> (bit: bool)
    requires
        index < bit_vec_contents(*v).len(),
    ensures
        bit == bit_vec_contents(*v)[index as int],
{
    v.index(index)
}

/// `binar::BitwiseMut::negate_index` on a vector: inverts the bit at an index in
/// range.
#[verifier::external_body]
pub(crate) fn bit_vec_negate(v: &mut binar::BitVec, index: usize)
    requires
        index < bit_vec_contents(*old(v)).len(),
    ensures
        bit_vec_contents(*final(v)) == bit_vec_contents(*old(v)).update(
            index as int,
            !bit_vec_contents(*old(v))[index as int],
        ),
{
    v.negate_index(index);
}

/// The correction of one gadget.
pub struct Frame {
    /// flips of the output observables
    pub residual: binar::BitVec,
    /// flips of the readouts
    pub readout_flips: binar::BitVec,
}

impl Frame {
    /// The flips of the output observables.
    pub open spec fn residual_bits(&self) -> Seq<bool> {
        bit_vec_contents(self.residual)
    }

    /// The flips of the readouts.
    pub open spec fn readout_bits(&self) -> Seq<bool> {
        bit_vec_contents(self.readout_flips)
    }

    /// The correction that changes nothing.
    pub fn zeros(observables: usize, readouts: usize) -> (frame: Frame)
        ensures
            frame.residual_bits() == Seq::new(observables as nat, |i: int| false),
            frame.readout_bits() == Seq::new(readouts as nat, |i: int| false),
    {
        Frame { residual: bit_vec_zeros(observables), readout_flips: bit_vec_zeros(readouts) }
    }

    /// The flips of the output observables, in order.
    pub fn residual_list(&self) -> (bits: Vec<bool>)
        ensures
            bits@ == self.residual_bits(),
    {
        list_bits(&self.residual)
    }

    /// The flips of the readouts, in order.
    pub fn readout_list(&self) -> (bits: Vec<bool>)
        ensures
            bits@ == self.readout_bits(),
    {
        list_bits(&self.readout_flips)
    }
}

/// The bits of a vector, in order.
fn list_bits(v: &binar::BitVec) -> (bits: Vec<bool>)
    ensures
        bits@ == bit_vec_contents(*v),
{
    let n: usize = bit_vec_len(v);
    let mut bits: Vec<bool> = Vec::new();
    let mut i: usize = 0;
    while i < n
        invariant
            i <= n,
            n == bit_vec_contents(*v).len(),
            bits@ =~= bit_vec_contents(*v).take(i as int),
        decreases n - i,
    {
        bits.push(bit_vec_index(v, i));
        i += 1;
    }
    assert(bits@ =~= bit_vec_contents(*v));
    bits
}

/// Bits with every listed one inverted, as often as it is listed.
pub open spec fn toggled(bits: Seq<bool>, indices: Seq<u64>) -> Seq<bool> {
    Seq::new(bits.len(), |i: int| bits[i] != occurs_oddly(indices, i as u64))
}

/// Every index is in range.
pub open spec fn in_range(indices: Seq<u64>, n: nat) -> bool {
    forall|k: int| 0 <= k < indices.len() ==> (#[trigger] indices[k]) < n
}

/// Inverts the listed bits; false if an index is out of range.
fn toggle(v: &mut binar::BitVec, indices: &Vec<u64>) -> (valid: bool)
    requires
        bit_vec_contents(*old(v)).len() <= u64::MAX,
    ensures
        valid == in_range(indices@, bit_vec_contents(*old(v)).len()),
        valid ==> bit_vec_contents(*final(v)) == toggled(bit_vec_contents(*old(v)), indices@),
        bit_vec_contents(*final(v)).len() == bit_vec_contents(*old(v)).len(),
{
    let n: usize = bit_vec_len(v);
    let ghost start = bit_vec_contents(*v);
    let mut k: usize = 0;
    assert(toggled(start, indices@.take(0)) =~= start);
    while k < indices.len()
        invariant
            k <= indices@.len(),
            n == start.len(),
            start.len() <= u64::MAX,
            start == bit_vec_contents(*old(v)),
            bit_vec_contents(*v).len() == n,
            in_range(indices@.take(k as int), n as nat),
            bit_vec_contents(*v) == toggled(start, indices@.take(k as int)),
        decreases indices@.len() - k,
    {
        let at: u64 = indices[k];
        if at >= n as u64 {
            assert(!in_range(indices@, start.len())) by {
                assert(indices@[k as int] >= n);
            }
            return false;
        }
        bit_vec_negate(v, at as usize);
        proof {
            let before = indices@.take(k as int);
            let after = indices@.take(k as int + 1);
            assert(after.drop_last() =~= before);
            assert(after.last() == at);
            assert forall|i: int| 0 <= i < after.len() implies (#[trigger] after[i]) < n by {
                if i < before.len() {
                    assert(before[i] == after[i]);
                }
            }
            assert forall|i: int| 0 <= i < n implies #[trigger] bit_vec_contents(*v)[i] == toggled(start, after)[i] by {
                assert(toggled(start, before)[i] == (start[i] != occurs_oddly(before, i as u64)));
            }
            assert(bit_vec_contents(*v) =~= toggled(start, after));
        }
        k += 1;
    }
    assert(indices@.take(indices@.len() as int) =~= indices@);
    true
}

// ---------------------------------------------------------------------------
// Applied mechanisms
// ---------------------------------------------------------------------------

/// A mechanism of an error model of a window, by local number.
pub open spec fn mechanism_of(
    index: ErrorIndex,
    global_eid_of: Seq<u64>,
    error_models: Map<u64, ErrorModel>,
    error_model_types: Map<u64, ErrorModelType>,
) -> Option<ErrorSpec> {
    if index.eid < global_eid_of.len() && error_models.contains_key(global_eid_of[index.eid as int])
        && error_model_types.contains_key(error_models[global_eid_of[index.eid as int]].instance.etype) {
        let errors = errors_view(
            error_model_types[error_models[global_eid_of[index.eid as int]].instance.etype].errors@,
        );
        if index.error_index < errors.len() {
            Some(errors[index.error_index as int])
        } else {
            None
        }
    } else {
        None
    }
}

/// The parity of what the first `n` fired mechanisms of gadget `owner` do to bit `i`:
/// of its output observables, or of its readouts.
pub open spec fn effect_parity(
    fired: Seq<ErrorIndex>,
    n: int,
    owners: Seq<usize>,
    owner: int,
    readout: bool,
    i: u64,
    global_eid_of: Seq<u64>,
    error_models: Map<u64, ErrorModel>,
    error_model_types: Map<u64, ErrorModelType>,
) -> bool
    decreases n,
{
    if n <= 0 {
        false
    } else {
        let before = effect_parity(
            fired,
            n - 1,
            owners,
            owner,
            readout,
            i,
            global_eid_of,
            error_models,
            error_model_types,
        );
        let index = fired[n - 1];
        let error = mechanism_of(index, global_eid_of, error_models, error_model_types)->0;
        if owners[index.eid as int] == owner {
            before != occurs_oddly(
                if readout {
                    error.readout_flips
                } else {
                    error.residual
                },
                i,
            )
        } else {
            before
        }
    }
}

/// A fired mechanism is known, and its flips are within its owner's sizes.
pub open spec fn mechanism_fits(
    index: ErrorIndex,
    owners: Seq<usize>,
    sizes: Seq<(usize, usize)>,
    global_eid_of: Seq<u64>,
    error_models: Map<u64, ErrorModel>,
    error_model_types: Map<u64, ErrorModelType>,
) -> bool {
    &&& mechanism_of(index, global_eid_of, error_models, error_model_types) is Some
    &&& index.eid < owners.len()
    &&& owners[index.eid as int] < sizes.len()
    &&& in_range(
        mechanism_of(index, global_eid_of, error_models, error_model_types)->0.residual,
        sizes[owners[index.eid as int] as int].0 as nat,
    )
    &&& in_range(
        mechanism_of(index, global_eid_of, error_models, error_model_types)->0.readout_flips,
        sizes[owners[index.eid as int] as int].1 as nat,
    )
}

/// The corrections of the gadgets of a window.
pub open spec fn are_corrections(
    frames: Seq<Frame>,
    fired: Seq<ErrorIndex>,
    n: int,
    owners: Seq<usize>,
    sizes: Seq<(usize, usize)>,
    global_eid_of: Seq<u64>,
    error_models: Map<u64, ErrorModel>,
    error_model_types: Map<u64, ErrorModelType>,
) -> bool {
    &&& frames.len() == sizes.len()
    &&& forall|g: int| 0 <= g < sizes.len() ==> (#[trigger] frames[g]).residual_bits() == Seq::new(
        sizes[g].0 as nat,
        |i: int| effect_parity(fired, n, owners, g, false, i as u64, global_eid_of, error_models, error_model_types),
    )
    &&& forall|g: int| 0 <= g < sizes.len() ==> (#[trigger] frames[g]).readout_bits() == Seq::new(
        sizes[g].1 as nat,
        |i: int| effect_parity(fired, n, owners, g, true, i as u64, global_eid_of, error_models, error_model_types),
    )
}

/// Finds a mechanism of an error model of a window.
fn find_mechanism<'a>(
    index: ErrorIndex,
    global_eid_of: &Vec<u64>,
    error_models: &Registry<ErrorModel>,
    error_model_types: &'a Registry<ErrorModelType>,
) -> (found: Option<&'a Error>)
    requires
        error_models.wf(),
        error_model_types.wf(),
    ensures
        match mechanism_of(index, global_eid_of@, error_models@, error_model_types@) {
            Some(expected) => found matches Some(e) && e@ == expected,
            None => found is None,
        },
{
    if index.eid >= global_eid_of.len() as u64 {
        return None;
    }
    let Some(error_model) = error_models.get(global_eid_of[index.eid as usize]) else {
        return None;
    };
    let Some(error_model_type) = error_model_types.get(error_model.instance.etype) else {
        return None;
    };
    if index.error_index >= error_model_type.errors.len() as u64 {
        return None;
    }
    let error = &error_model_type.errors[index.error_index as usize];
    assert(errors_view(error_model_type.errors@)[index.error_index as int] == error@);
    Some(error)
}

/// The corrections of the gadgets of a window: `sizes` gives how many output
/// observables and readouts each local gadget has, `fired` the mechanisms to apply.
/// `None` if a mechanism is unknown or flips a bit that its gadget does not have.
pub fn corrections_of(
    fired: &Vec<ErrorIndex>,
    mapping: &RelativeMapping,
    sizes: &Vec<(usize, usize)>,
    error_models: &Registry<ErrorModel>,
    error_model_types: &Registry<ErrorModelType>,
) -> (frames: Option<Vec<Frame>>)
    requires
        error_models.wf(),
        error_model_types.wf(),
    ensures
        frames is Some <==> forall|k: int|
            0 <= k < fired@.len() ==> mechanism_fits(
                #[trigger] fired@[k],
                mapping.local_gid_of_local_eid@,
                sizes@,
                mapping.global_eid_of@,
                error_models@,
                error_model_types@,
            ),
        frames matches Some(list) ==> are_corrections(
            list@,
            fired@,
            fired@.len() as int,
            mapping.local_gid_of_local_eid@,
            sizes@,
            mapping.global_eid_of@,
            error_models@,
            error_model_types@,
        ),
{
    let ghost owners = mapping.local_gid_of_local_eid@;
    let ghost eids = mapping.global_eid_of@;
    let mut frames: Vec<Frame> = Vec::new();
    let mut g: usize = 0;
    while g < sizes.len()
        invariant
            g <= sizes@.len(),
            frames@.len() == g,
            forall|k: int|
                0 <= k < g ==> (#[trigger] frames@[k]).residual_bits() == Seq::new(sizes@[k].0 as nat, |i: int| false),
            forall|k: int|
                0 <= k < g ==> (#[trigger] frames@[k]).readout_bits() == Seq::new(sizes@[k].1 as nat, |i: int| false),
        decreases sizes@.len() - g,
    {
        frames.push(Frame::zeros(sizes[g].0, sizes[g].1));
        g += 1;
    }
    proof {
        assert forall|g: int| 0 <= g < sizes@.len() implies (#[trigger] frames@[g]).residual_bits() =~= Seq::new(
            sizes@[g].0 as nat,
            |i: int| effect_parity(fired@, 0, owners, g, false, i as u64, eids, error_models@, error_model_types@),
        ) && frames@[g].readout_bits() =~= Seq::new(
            sizes@[g].1 as nat,
            |i: int| effect_parity(fired@, 0, owners, g, true, i as u64, eids, error_models@, error_model_types@),
        ) by {
        }
    }
    let mut n: usize = 0;
    while n < fired.len()
        invariant
            error_models.wf(),
            error_model_types.wf(),
            n <= fired@.len(),
            owners == mapping.local_gid_of_local_eid@,
            eids == mapping.global_eid_of@,
            are_corrections(frames@, fired@, n as int, owners, sizes@, eids, error_models@, error_model_types@),
            forall|k: int|
                0 <= k < n ==> mechanism_fits(
                    #[trigger] fired@[k],
                    owners,
                    sizes@,
                    eids,
                    error_models@,
                    error_model_types@,
                ),
        decreases fired@.len() - n,
    {
        let index = fired[n];
        let Some(error) = find_mechanism(index, &mapping.global_eid_of, error_models, error_model_types) else {
            assert(!mechanism_fits(fired@[n as int], owners, sizes@, eids, error_models@, error_model_types@));
            return None;
        };
        if index.eid >= mapping.local_gid_of_local_eid.len() as u64 {
            assert(!mechanism_fits(fired@[n as int], owners, sizes@, eids, error_models@, error_model_types@));
            return None;
        }
        let owner: usize = mapping.local_gid_of_local_eid[index.eid as usize];
        if owner >= sizes.len() {
            assert(!mechanism_fits(fired@[n as int], owners, sizes@, eids, error_models@, error_model_types@));
            return None;
        }
        let ghost before = frames@;
        let ghost residual = frames@[owner as int].residual_bits();
        let ghost readouts = frames@[owner as int].readout_bits();
        let first = toggle(&mut frames[owner].residual, &error.residual);
        if !first {
            assert(!mechanism_fits(fired@[n as int], owners, sizes@, eids, error_models@, error_model_types@));
            return None;
        }
        let second = toggle(&mut frames[owner].readout_flips, &error.readout_flips);
        if !second {
            assert(!mechanism_fits(fired@[n as int], owners, sizes@, eids, error_models@, error_model_types@));
            return None;
        }
        proof {
            assert(frames@[owner as int].residual_bits() == toggled(residual, error@.residual));
            assert(frames@[owner as int].readout_bits() == toggled(readouts, error@.readout_flips));
            assert forall|g: int| 0 <= g < sizes@.len() implies (#[trigger] frames@[g]).residual_bits() =~= Seq::new(
                sizes@[g].0 as nat,
                |i: int| effect_parity(fired@, n as int + 1, owners, g, false, i as u64, eids, error_models@, error_model_types@),
            ) && frames@[g].readout_bits() =~= Seq::new(
                sizes@[g].1 as nat,
                |i: int| effect_parity(fired@, n as int + 1, owners, g, true, i as u64, eids, error_models@, error_model_types@),
            ) by {
                if g != owner {
                    assert(frames@[g] == before[g]);
                }
                assert(before[g].residual_bits() == Seq::new(
                    sizes@[g].0 as nat,
                    |i: int| effect_parity(fired@, n as int, owners, g, false, i as u64, eids, error_models@, error_model_types@),
                ));
                assert(before[g].readout_bits() == Seq::new(
                    sizes@[g].1 as nat,
                    |i: int| effect_parity(fired@, n as int, owners, g, true, i as u64, eids, error_models@, error_model_types@),
                ));
            }
        }
        n += 1;
    }
    Some(frames)
}

/// What joined lists of mechanisms do to a bit.
proof fn lemma_effects_add_up(
    a: Seq<ErrorIndex>,
    b: Seq<ErrorIndex>,
    n: int,
    owners: Seq<usize>,
    owner: int,
    readout: bool,
    i: u64,
    global_eid_of: Seq<u64>,
    error_models: Map<u64, ErrorModel>,
    error_model_types: Map<u64, ErrorModelType>,
)
    requires
        0 <= n <= b.len(),
    ensures
        effect_parity(a + b, a.len() + n, owners, owner, readout, i, global_eid_of, error_models, error_model_types) == (
        effect_parity(a, a.len() as int, owners, owner, readout, i, global_eid_of, error_models, error_model_types)
            != effect_parity(b, n, owners, owner, readout, i, global_eid_of, error_models, error_model_types)),
    decreases n,
{
    if n > 0 {
        lemma_effects_add_up(a, b, n - 1, owners, owner, readout, i, global_eid_of, error_models, error_model_types);
        assert((a + b)[a.len() + n - 1] == b[n - 1]);
    } else {
        lemma_effects_of_prefix(a, a + b, a.len() as int, owners, owner, readout, i, global_eid_of, error_models, error_model_types);
    }
}

proof fn lemma_effects_of_prefix(
    a: Seq<ErrorIndex>,
    b: Seq<ErrorIndex>,
    n: int,
    owners: Seq<usize>,
    owner: int,
    readout: bool,
    i: u64,
    global_eid_of: Seq<u64>,
    error_models: Map<u64, ErrorModel>,
    error_model_types: Map<u64, ErrorModelType>,
)
    requires
        0 <= n <= a.len(),
        a.is_prefix_of(b),
    ensures
        effect_parity(a, n, owners, owner, readout, i, global_eid_of, error_models, error_model_types) == effect_parity(
            b,
            n,
            owners,
            owner,
            readout,
            i,
            global_eid_of,
            error_models,
            error_model_types,
        ),
    decreases n,
{
    if n > 0 {
        lemma_effects_of_prefix(a, b, n - 1, owners, owner, readout, i, global_eid_of, error_models, error_model_types);
        assert(a[n - 1] == b[n - 1]);
    }
}

/// The corrections of joined lists of mechanisms are those of each list taken together, for
/// output observables and for readouts.
pub proof fn law_corrections_add_up(
    joined: Seq<Frame>,
    first: Seq<Frame>,
    second: Seq<Frame>,
    a: Seq<ErrorIndex>,
    b: Seq<ErrorIndex>,
    owners: Seq<usize>,
    sizes: Seq<(usize, usize)>,
    global_eid_of: Seq<u64>,
    error_models: Map<u64, ErrorModel>,
    error_model_types: Map<u64, ErrorModelType>,
    g: int,
)
    requires
        are_corrections(
            joined,
            a + b,
            (a + b).len() as int,
            owners,
            sizes,
            global_eid_of,
            error_models,
            error_model_types,
        ),
        are_corrections(first, a, a.len() as int, owners, sizes, global_eid_of, error_models, error_model_types),
        are_corrections(second, b, b.len() as int, owners, sizes, global_eid_of, error_models, error_model_types),
        0 <= g < sizes.len(),
    ensures
        joined.len() == sizes.len(),
        joined[g].residual_bits().len() == sizes[g].0,
        joined[g].readout_bits().len() == sizes[g].1,
        forall|i: int|
            0 <= i < sizes[g].0 ==> #[trigger] joined[g].residual_bits()[i] == (first[g].residual_bits()[i]
                != second[g].residual_bits()[i]),
        forall|i: int|
            0 <= i < sizes[g].1 ==> #[trigger] joined[g].readout_bits()[i] == (first[g].readout_bits()[i]
                != second[g].readout_bits()[i]),
{
    assert(joined[g].residual_bits().len() == sizes[g].0 && first[g].residual_bits().len() == sizes[g].0
        && second[g].residual_bits().len() == sizes[g].0);
    assert(joined[g].readout_bits().len() == sizes[g].1 && first[g].readout_bits().len() == sizes[g].1
        && second[g].readout_bits().len() == sizes[g].1);
    assert forall|i: int| 0 <= i < sizes[g].0 implies #[trigger] joined[g].residual_bits()[i] == (first[g].residual_bits()[i]
        != second[g].residual_bits()[i]) by {
        lemma_effects_add_up(
            a,
            b,
            b.len() as int,
            owners,
            g,
            false,
            i as u64,
            global_eid_of,
            error_models,
            error_model_types,
        );
    }
    assert forall|i: int| 0 <= i < sizes[g].1 implies #[trigger] joined[g].readout_bits()[i] == (first[g].readout_bits()[i]
        != second[g].readout_bits()[i]) by {
        lemma_effects_add_up(
            a,
            b,
            b.len() as int,
            owners,
            g,
            true,
            i as u64,
            global_eid_of,
            error_models,
            error_model_types,
        );
    }
}

/// One fired mechanism inverts, in the correction of the gadget that owns it, exactly the
/// output observables that its residual lists an odd number of times, and the readouts
/// that its readout flips list an odd number of times. All other corrections are empty.
pub proof fn law_one_mechanism_corrects_its_owner(
    frames: Seq<Frame>,
    m: ErrorIndex,
    owners: Seq<usize>,
    sizes: Seq<(usize, usize)>,
    global_eid_of: Seq<u64>,
    error_models: Map<u64, ErrorModel>,
    error_model_types: Map<u64, ErrorModelType>,
    g: int,
)
    requires
        mechanism_fits(m, owners, sizes, global_eid_of, error_models, error_model_types),
        are_corrections(frames, seq![m], 1, owners, sizes, global_eid_of, error_models, error_model_types),
        0 <= g < sizes.len(),
    ensures
        ({
            let error =
                error_model_types[error_models[global_eid_of[m.eid as int]].instance.etype].errors@[m.error_index as int];
            &&& frames[g].residual_bits().len() == sizes[g].0
            &&& frames[g].readout_bits().len() == sizes[g].1
            &&& forall|i: int|
                0 <= i < sizes[g].0 ==> #[trigger] frames[g].residual_bits()[i] == (owners[m.eid as int] == g
                    && error.residual@.filter(|r: u64| r == i).len() % 2 == 1)
            &&& forall|i: int|
                0 <= i < sizes[g].1 ==> #[trigger] frames[g].readout_bits()[i] == (owners[m.eid as int] == g
                    && error.readout_flips@.filter(|r: u64| r == i).len() % 2 == 1)
        }),
{
    let error = error_model_types[error_models[global_eid_of[m.eid as int]].instance.etype].errors@[m.error_index as int];
    let spec_error = mechanism_of(m, global_eid_of, error_models, error_model_types)->0;
    assert(spec_error.residual == error.residual@ && spec_error.readout_flips == error.readout_flips@);
    reveal_with_fuel(effect_parity, 2);
    assert(seq![m][0] == m);
    assert forall|i: int| 0 <= i < sizes[g].0 implies #[trigger] frames[g].residual_bits()[i] == (owners[m.eid as int] == g
        && error.residual@.filter(|r: u64| r == i).len() % 2 == 1) by {
        law_occurrences_are_counted(error.residual@, i as u64);
        assert((|r: u64| r == i) =~= (|r: u64| r == i as u64));
    }
    assert forall|i: int| 0 <= i < sizes[g].1 implies #[trigger] frames[g].readout_bits()[i] == (owners[m.eid as int] == g
        && error.readout_flips@.filter(|r: u64| r == i).len() % 2 == 1) by {
        law_occurrences_are_counted(error.readout_flips@, i as u64);
        assert((|r: u64| r == i) =~= (|r: u64| r == i as u64));
    }
}

/// Firing nothing corrects nothing.
pub proof fn law_no_mechanism_corrects_nothing(
    frames: Seq<Frame>,
    owners: Seq<usize>,
    sizes: Seq<(usize, usize)>,
    global_eid_of: Seq<u64>,
    error_models: Map<u64, ErrorModel>,
    error_model_types: Map<u64, ErrorModelType>,
    g: int,
)
    requires
        are_corrections(frames, Seq::empty(), 0, owners, sizes, global_eid_of, error_models, error_model_types),
        0 <= g < sizes.len(),
    ensures
        frames[g].residual_bits() == Seq::new(sizes[g].0 as nat, |i: int| false),
        frames[g].readout_bits() == Seq::new(sizes[g].1 as nat, |i: int| false),
{
    assert(frames[g].residual_bits() =~= Seq::new(sizes[g].0 as nat, |i: int| false));
    assert(frames[g].readout_bits() =~= Seq::new(sizes[g].1 as nat, |i: int| false));
}

/// Firing a mechanism twice changes nothing.
pub proof fn law_toggle_twice_is_identity(bits: Seq<bool>, indices: Seq<u64>)
    ensures
        toggled(toggled(bits, indices), indices) == bits,
{
    assert(toggled(toggled(bits, indices), indices) =~= bits);
}

proof fn lemma_effects_counted(
    fired: Seq<ErrorIndex>,
    n: int,
    owners: Seq<usize>,
    owner: int,
    readout: bool,
    i: u64,
    global_eid_of: Seq<u64>,
    error_models: Map<u64, ErrorModel>,
    error_model_types: Map<u64, ErrorModelType>,
)
    requires
        0 <= n <= fired.len(),
        forall|k: int|
            0 <= k < n ==> mechanism_of(#[trigger] fired[k], global_eid_of, error_models, error_model_types) is Some,
    ensures
        !readout ==> effect_parity(fired, n, owners, owner, readout, i, global_eid_of, error_models, error_model_types) == (
        fired.take(n).filter(
            |m: ErrorIndex| owners[m.eid as int] == owner && error_model_types[error_models[global_eid_of[m.eid as int]].instance.etype].errors@[m.error_index as int].residual@.filter(|r: u64| r == i).len() % 2 == 1,
        ).len() % 2 == 1),
        readout ==> effect_parity(fired, n, owners, owner, readout, i, global_eid_of, error_models, error_model_types) == (
        fired.take(n).filter(
            |m: ErrorIndex| owners[m.eid as int] == owner && error_model_types[error_models[global_eid_of[m.eid as int]].instance.etype].errors@[m.error_index as int].readout_flips@.filter(|r: u64| r == i).len() % 2 == 1,
        ).len() % 2 == 1),
    decreases n,
{
    reveal(Seq::filter);
    let residual = |m: ErrorIndex| owners[m.eid as int] == owner && error_model_types[error_models[global_eid_of[m.eid as int]].instance.etype].errors@[m.error_index as int].residual@.filter(|r: u64| r == i).len() % 2 == 1;
    let flips = |m: ErrorIndex| owners[m.eid as int] == owner && error_model_types[error_models[global_eid_of[m.eid as int]].instance.etype].errors@[m.error_index as int].readout_flips@.filter(|r: u64| r == i).len() % 2 == 1;
    if n > 0 {
        lemma_effects_counted(fired, n - 1, owners, owner, readout, i, global_eid_of, error_models, error_model_types);
        let m = fired[n - 1];
        let error = error_model_types[error_models[global_eid_of[m.eid as int]].instance.etype].errors@[m.error_index as int];
        let spec_error = mechanism_of(m, global_eid_of, error_models, error_model_types)->0;
        assert(spec_error.residual == error.residual@ && spec_error.readout_flips == error.readout_flips@);
        law_occurrences_are_counted(error.residual@, i);
        law_occurrences_are_counted(error.readout_flips@, i);
        let (before, after) = (fired.take(n - 1), fired.take(n));
        assert(after.drop_last() =~= before);
        assert(after.last() == m);
        assert(after.filter(residual).len() == before.filter(residual).len() + (if residual(m) {
            1int
        } else {
            0int
        }));
        assert(after.filter(flips).len() == before.filter(flips).len() + (if flips(m) {
            1int
        } else {
            0int
        }));
    } else {
        assert(fired.take(n) =~= Seq::<ErrorIndex>::empty());
    }
}

/// An output observable of a gadget is inverted exactly if an odd number of the fired
/// mechanisms that the gadget owns list it an odd number of times in their residuals; a
/// readout likewise by their readout flips.
pub proof fn law_corrections_count_mechanisms(
    frames: Seq<Frame>,
    fired: Seq<ErrorIndex>,
    owners: Seq<usize>,
    sizes: Seq<(usize, usize)>,
    global_eid_of: Seq<u64>,
    error_models: Map<u64, ErrorModel>,
    error_model_types: Map<u64, ErrorModelType>,
    g: int,
    i: u64,
)
    requires
        forall|k: int|
            0 <= k < fired.len() ==> mechanism_fits(
                #[trigger] fired[k],
                owners,
                sizes,
                global_eid_of,
                error_models,
                error_model_types,
            ),
        are_corrections(
            frames,
            fired,
            fired.len() as int,
            owners,
            sizes,
            global_eid_of,
            error_models,
            error_model_types,
        ),
        0 <= g < sizes.len(),
    ensures
        frames.len() == sizes.len(),
        frames[g].residual_bits().len() == sizes[g].0,
        frames[g].readout_bits().len() == sizes[g].1,
        i < sizes[g].0 ==> frames[g].residual_bits()[i as int] == (fired.filter(
                |m: ErrorIndex|
                    owners[m.eid as int] == g
                        && error_model_types[error_models[global_eid_of[m.eid as int]].instance.etype].errors@[m.error_index as int].residual@.filter(
                        |r: u64| r == i,
                    ).len() % 2 == 1,
            ).len() % 2 == 1),
        i < sizes[g].1 ==> frames[g].readout_bits()[i as int] == (fired.filter(
                |m: ErrorIndex|
                    owners[m.eid as int] == g
                        && error_model_types[error_models[global_eid_of[m.eid as int]].instance.etype].errors@[m.error_index as int].readout_flips@.filter(
                        |r: u64| r == i,
                    ).len() % 2 == 1,
            ).len() % 2 == 1),
{
    let n = fired.len() as int;
    assert(fired.take(n) =~= fired);
    assert forall|k: int| 0 <= k < n implies mechanism_of(
        #[trigger] fired[k],
        global_eid_of,
        error_models,
        error_model_types,
    ) is Some by {
        assert(mechanism_fits(fired[k], owners, sizes, global_eid_of, error_models, error_model_types));
    }
    lemma_effects_counted(fired, n, owners, g, false, i, global_eid_of, error_models, error_model_types);
    assert(i < sizes[g].0 ==> frames[g].residual_bits()[i as int] == effect_parity(
        fired,
        n,
        owners,
        g,
        false,
        i,
        global_eid_of,
        error_models,
        error_model_types,
    ));
    lemma_effects_counted(fired, n, owners, g, true, i, global_eid_of, error_models, error_model_types);
    assert(i < sizes[g].1 ==> frames[g].readout_bits()[i as int] == effect_parity(
        fired,
        n,
        owners,
        g,
        true,
        i,
        global_eid_of,
        error_models,
        error_model_types,
    ));
}

/// A mechanism can be applied exactly if it is known, its error model has an owner in the
/// window, and everything that it flips is within the owner's sizes.
pub proof fn law_known_mechanism_can_be_applied(
    m: ErrorIndex,
    owners: Seq<usize>,
    sizes: Seq<(usize, usize)>,
    global_eid_of: Seq<u64>,
    error_models: Map<u64, ErrorModel>,
    error_model_types: Map<u64, ErrorModelType>,
)
    ensures
        mechanism_fits(m, owners, sizes, global_eid_of, error_models, error_model_types) <==> {
            let etype = error_models[global_eid_of[m.eid as int]].instance.etype;
            let error = error_model_types[etype].errors@[m.error_index as int];
            let owner = owners[m.eid as int] as int;
            &&& m.eid < global_eid_of.len()
            &&& error_models.contains_key(global_eid_of[m.eid as int])
            &&& error_model_types.contains_key(etype)
            &&& m.error_index < error_model_types[etype].errors@.len()
            &&& m.eid < owners.len()
            &&& owner < sizes.len()
            &&& forall|k: int| 0 <= k < error.residual@.len() ==> (#[trigger] error.residual@[k]) < sizes[owner].0
            &&& forall|k: int| 0 <= k < error.readout_flips@.len() ==> (#[trigger] error.readout_flips@[k]) < sizes[owner].1
        },
{
    if mechanism_of(m, global_eid_of, error_models, error_model_types) is Some {
        let etype = error_models[global_eid_of[m.eid as int]].instance.etype;
        let error = error_model_types[etype].errors@[m.error_index as int];
        let found = mechanism_of(m, global_eid_of, error_models, error_model_types)->0;
        assert(found.residual == error.residual@ && found.readout_flips == error.readout_flips@);
    }
}

} // verus!
