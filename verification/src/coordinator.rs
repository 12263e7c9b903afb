//! Requests and answers of a coordinator, the kinds of coordinators, and how lost
//! measurements are filled in.
use crate::bit_vector::{get_bit, set_bit, BitVector};
use crate::generator::{law_seed_decides_the_bits, random_seed, Generator};
use vstd::prelude::*;

verus! {

/// The measurement outcomes of a gadget.
#[derive(Debug, Clone, PartialEq, Eq)]
pub struct Outcomes {
    pub gid: u64,
    pub outcomes: Option<BitVector>,
    /// the measurements that were lost
    pub loss_mask: Option<BitVector>,
}

/// The answer to a decode request.
#[derive(Debug, Clone, PartialEq, Eq)]
pub struct Readouts {
    pub gid: u64,
    pub readouts: Option<BitVector>,
    pub detectors: Option<BitVector>,
}

/// What a reset clears beside the running program.
#[derive(Debug, Clone, Copy, PartialEq, Eq, Structural)]
pub struct ResetRequest {
    pub reset_library: bool,
    pub reset_decoder_service: bool,
}

/// The kinds of coordinators.
#[derive(Copy, Clone, PartialEq, Eq, PartialOrd, Ord, Debug, Structural)]
pub enum CoordinatorType {
    /// does nothing but return all-zero or random readouts
    Naive,
    /// decodes when all outputs are connected and all outcomes are loaded
    Monolithic,
    /// window decoding
    Window,
}

impl CoordinatorType {
    /// The kind with the given name.
    pub fn from_name(name: &str) -> (kind: Option<Self>)
        ensures
            kind == (if name@ == "naive"@ {
                Some(CoordinatorType::Naive)
            } else if name@ == "monolithic"@ {
                Some(CoordinatorType::Monolithic)
            } else if name@ == "window"@ {
                Some(CoordinatorType::Window)
            } else {
                None
            }),
    {
        let name = name.to_owned();
        if name == "naive".to_owned() {
            Some(CoordinatorType::Naive)
        } else if name == "monolithic".to_owned() {
            Some(CoordinatorType::Monolithic)
        } else if name == "window".to_owned() {
            Some(CoordinatorType::Window)
        } else {
            None
        }
    }

    /// The name of a kind.
    pub open spec fn name(self) -> Seq<char> {
        match self {
            CoordinatorType::Naive => "naive"@,
            CoordinatorType::Monolithic => "monolithic"@,
            CoordinatorType::Window => "window"@,
        }
    }

    /// The names of all kinds.
    pub fn variant_names() -> (names: Vec<&'static str>)
        ensures
            names@.len() == 3,
            names@[0]@ == CoordinatorType::Naive.name(),
            names@[1]@ == CoordinatorType::Monolithic.name(),
            names@[2]@ == CoordinatorType::Window.name(),
    {
        let mut names: Vec<&'static str> = Vec::new();
        names.push("naive");
        names.push("monolithic");
        names.push("window");
        names
    }

    /// Help on the options of each kind: empty, the command line provides its own.
    pub fn config_help() -> (help: String)
        ensures
            help@ == Seq::<char>::empty(),
    {
        String::new()
    }

    /// Whether coordinators of this kind hand work to a decoder.
    pub fn needs_decoder(&self) -> (yes: bool)
        ensures
            yes == !(*self is Naive),
    {
        match self {
            CoordinatorType::Naive => false,
            CoordinatorType::Monolithic => true,
            CoordinatorType::Window => true,
        }
    }
}

// ---------------------------------------------------------------------------
// Lost measurements
// ---------------------------------------------------------------------------

/// The generator that fills in lost measurements, if they are to be filled in. It is made
/// with the seed that is configured; without one, a seed is drawn.
pub fn imputation_rng(enabled: bool, seed: Option<u64>) -> (rng: Option<Generator>)
    ensures
        rng is Some == enabled,
        rng matches Some(generator) ==> {
            &&& generator.drawn() == Seq::<bool>::empty()
            &&& seed matches Some(configured) ==> generator.seed() == configured
        },
{
    if enabled {
        let seed: u64 = match seed {
            Some(seed) => seed,
            None => random_seed(),
        };
        Some(Generator::new(seed))
    } else {
        None
    }
}

/// How many of the first `n` bits are set.
pub open spec fn count_set(bits: Seq<bool>, n: int) -> nat
    decreases n,
{
    if n <= 0 {
        0
    } else if bits[n - 1] {
        count_set(bits, n - 1) + 1
    } else {
        count_set(bits, n - 1)
    }
}

/// Outcomes with every lost one replaced: the lost ones take the drawn bits in order.
pub open spec fn imputed(outcomes: Seq<bool>, mask: Seq<bool>, drawn: Seq<bool>) -> Seq<bool> {
    Seq::new(
        outcomes.len(),
        |i: int|
            if mask[i] {
                drawn[count_set(mask, i) as int]
            } else {
                outcomes[i]
            },
    )
}

/// More bits are set among more bits.
proof fn lemma_count_set(bits: Seq<bool>, a: int, b: int)
    requires
        0 <= a <= b <= bits.len(),
    ensures
        count_set(bits, a) <= count_set(bits, b) <= count_set(bits, a) + (b - a),
    decreases b - a,
{
    if a < b {
        lemma_count_set(bits, a, b - 1);
    }
}

/// Replaces every lost outcome by the next drawn bit.
pub fn impute(outcomes: &mut BitVector, loss_mask: &BitVector, drawn: &Vec<bool>)
    requires
        old(outcomes).wf(),
        loss_mask.wf(),
        old(outcomes).size == loss_mask.size,
        drawn@.len() == count_set(loss_mask@, loss_mask.size as int),
    ensures
        final(outcomes).wf(),
        final(outcomes).size == old(outcomes).size,
        final(outcomes)@ == imputed(old(outcomes)@, loss_mask@, drawn@),
{
    let ghost before = outcomes@;
    let ghost mask = loss_mask@;
    let mut i: u64 = 0;
    let mut used: usize = 0;
    while i < loss_mask.size
        invariant
            i <= loss_mask.size,
            outcomes.wf(),
            loss_mask.wf(),
            outcomes.size == loss_mask.size,
            outcomes.size == old(outcomes).size,
            before.len() == loss_mask.size,
            mask == loss_mask@,
            mask.len() == loss_mask.size,
            drawn@.len() == count_set(mask, loss_mask.size as int),
            used == count_set(mask, i as int),
            outcomes@.len() == before.len(),
            forall|k: int| 0 <= k < i ==> #[trigger] outcomes@[k] == imputed(before, mask, drawn@)[k],
            forall|k: int| i <= k < before.len() ==> #[trigger] outcomes@[k] == before[k],
        decreases loss_mask.size - i,
    {
        proof {
            lemma_count_set(mask, i as int + 1, loss_mask.size as int);
        }
        if get_bit(loss_mask, i) {
            set_bit(outcomes, i, drawn[used]);
            assert(used < drawn.len());
            used += 1;
        }
        i += 1;
    }
    assert(outcomes@ =~= imputed(before, mask, drawn@));
}

/// The bits that a generator gave since it had given `before`.
pub open spec fn drawn_since(before: Generator, after: Generator) -> Seq<bool> {
    after.drawn().skip(before.drawn().len() as int)
}

/// A generator that gave `count` bits more.
pub open spec fn drew(before: Generator, after: Generator, count: nat) -> bool {
    &&& after.seed() == before.seed()
    &&& after.drawn().len() == before.drawn().len() + count
    &&& before.drawn() == after.drawn().take(before.drawn().len() as int)
}

/// Replaces every lost outcome by the next bit of the generator, in order. Nothing else
/// is drawn; without lost outcomes the generator stays as it is.
pub fn apply_loss_random_imputation(outcomes: &mut BitVector, loss_mask: &BitVector, rng: &mut Generator)
    requires
        old(outcomes).wf(),
        loss_mask.wf(),
        old(outcomes).size == loss_mask.size,
    ensures
        final(outcomes).wf(),
        final(outcomes).size == old(outcomes).size,
        final(outcomes)@ == imputed(old(outcomes)@, loss_mask@, drawn_since(*old(rng), *final(rng))),
        drew(*old(rng), *final(rng), count_set(loss_mask@, loss_mask.size as int)),
        count_set(loss_mask@, loss_mask.size as int) == 0 ==> *final(rng) == *old(rng),
{
    let mut drawn: Vec<bool> = Vec::new();
    let ghost mask = loss_mask@;
    let ghost start = *rng;
    let mut i: u64 = 0;
    while i < loss_mask.size
        invariant
            i <= loss_mask.size,
            loss_mask.wf(),
            mask == loss_mask@,
            drawn@.len() == count_set(mask, i as int),
            rng.seed() == start.seed(),
            rng.drawn() =~= start.drawn() + drawn@,
            count_set(mask, i as int) == 0 ==> *rng == start,
        decreases loss_mask.size - i,
    {
        if get_bit(loss_mask, i) {
            drawn.push(rng.draw());
        }
        i += 1;
    }
    proof {
        assert(drawn_since(start, *rng) =~= drawn@);
        assert(start.drawn() =~= rng.drawn().take(start.drawn().len() as int));
    }
    impute(outcomes, loss_mask, &drawn);
}

/// Outcomes with every lost one replaced by the next bit of a generator.
pub open spec fn filled_in(given: BitVector, mask: BitVector, before: Generator, after: Generator, bits: BitVector) -> bool {
    &&& bits.wf()
    &&& bits.size == given.size
    &&& bits@ == imputed(given@, mask@, drawn_since(before, after))
    &&& drew(before, after, count_set(mask@, mask.size as int))
    &&& count_set(mask@, mask.size as int) == 0 ==> after == before
}

/// Imputing the same outcomes with generators of the same seed that gave equally many bits
/// before gives the same outcomes.
pub proof fn law_same_seed_fills_in_the_same(
    given: BitVector,
    mask: BitVector,
    a: Generator,
    after_a: Generator,
    filled_a: BitVector,
    b: Generator,
    after_b: Generator,
    filled_b: BitVector,
)
    requires
        a.seed() == b.seed(),
        a.drawn().len() == b.drawn().len(),
        filled_in(given, mask, a, after_a, filled_a),
        filled_in(given, mask, b, after_b, filled_b),
    ensures
        filled_a@ == filled_b@,
        after_a.drawn() == after_b.drawn(),
{
    law_seed_decides_the_bits(after_a, after_b);
}

/// An outcome that was not lost stays as it is, whatever is drawn.
pub proof fn law_imputation_keeps_measured_outcomes(outcomes: Seq<bool>, mask: Seq<bool>, drawn: Seq<bool>, i: int)
    requires
        mask.len() == outcomes.len(),
        0 <= i < outcomes.len(),
        !mask[i],
    ensures
        imputed(outcomes, mask, drawn)[i] == outcomes[i],
        imputed(outcomes, mask, drawn).len() == outcomes.len(),
{
}

/// Outcomes before and after the lost ones were filled in, with the generator at hand
/// before and after, if there is one.
pub open spec fn imputes(before: Outcomes, after: Outcomes, rng: Option<(Generator, Generator)>) -> bool {
    &&& after.gid == before.gid
    &&& after.loss_mask is None
    &&& match (before.outcomes, before.loss_mask, rng) {
        (Some(given), Some(mask), Some((start, end))) => after.outcomes matches Some(bits) && filled_in(
            given,
            mask,
            start,
            end,
            bits,
        ),
        _ => after.outcomes == before.outcomes && (rng matches Some((start, end)) ==> end == start),
    }
}

/// Filling in a second time leaves outcomes and generator as the first time left them.
pub proof fn law_second_imputation_changes_nothing(
    given: Outcomes,
    once: Outcomes,
    twice: Outcomes,
    first: Option<(Generator, Generator)>,
    second: Option<(Generator, Generator)>,
)
    requires
        imputes(given, once, first),
        imputes(once, twice, second),
    ensures
        twice == once,
        second matches Some((start, end)) ==> end == start,
{
}

impl Outcomes {
    /// The mask, if there is one, fits the outcomes, if there are any.
    pub open spec fn mask_fits(&self) -> bool {
        self.outcomes matches Some(bits) ==> (self.loss_mask matches Some(mask) ==> {
            &&& bits.wf()
            &&& mask.wf()
            &&& bits.size == mask.size
        })
    }

    /// Fills in the lost outcomes and takes the mask away, so that they are not filled
    /// in again with other bits.
    pub fn impute_loss_outcomes(&mut self, rng: Option<&mut Generator>)
        requires
            old(self).mask_fits(),
        ensures
            imputes(
                *old(self),
                *final(self),
                match rng {
                    Some(r) => Some((*r, *final(r))),
                    None => None,
                },
            ),
    {
        let Some(mask) = self.loss_mask.take() else {
            return ;
        };
        let Some(rng) = rng else {
            return ;
        };
        let Some(mut bits) = self.outcomes.take() else {
            return ;
        };
        apply_loss_random_imputation(&mut bits, &mask, rng);
        self.outcomes = Some(bits);
    }
}

/// The lost outcomes take the drawn bits in order: a lost outcome takes the bit with the
/// number of the lost ones before it, and as many bits are drawn as outcomes are lost.
pub proof fn law_lost_outcomes_take_the_drawn_bits(
    given: BitVector,
    mask: BitVector,
    before: Generator,
    after: Generator,
    bits: BitVector,
    i: int,
)
    requires
        filled_in(given, mask, before, after, bits),
        mask.size == given.size,
        0 <= i < given.size,
    ensures
        bits@.len() == given@.len(),
        !mask@[i] ==> bits@[i] == given@[i],
        mask@[i] ==> bits@[i] == after.drawn()[(before.drawn().len() + mask@.take(i).filter(|lost: bool| lost).len()) as int],
        after.drawn().len() == before.drawn().len() + mask@.filter(|lost: bool| lost).len(),
{
    let n = mask.size as int;
    lemma_set_bits_counted(mask@, i);
    lemma_set_bits_counted(mask@, n);
    assert(mask@.take(n) =~= mask@);
    if mask@[i] {
        lemma_fewer_before(mask@, i, n);
        assert(drawn_since(before, after)[count_set(mask@, i) as int] == after.drawn()[(before.drawn().len() + count_set(
            mask@,
            i,
        )) as int]);
    }
}

proof fn lemma_set_bits_counted(bits: Seq<bool>, n: int)
    requires
        0 <= n <= bits.len(),
    ensures
        count_set(bits, n) == bits.take(n).filter(|lost: bool| lost).len(),
    decreases n,
{
    reveal(Seq::filter);
    if n > 0 {
        lemma_set_bits_counted(bits, n - 1);
        assert(bits.take(n).drop_last() =~= bits.take(n - 1));
        assert(bits.take(n).last() == bits[n - 1]);
    } else {
        assert(bits.take(n) =~= Seq::<bool>::empty());
    }
}

proof fn lemma_fewer_before(bits: Seq<bool>, i: int, n: int)
    requires
        0 <= i < n <= bits.len(),
        bits[i],
    ensures
        count_set(bits, i) < count_set(bits, n),
    decreases n,
{
    if i < n - 1 {
        lemma_fewer_before(bits, i, n - 1);
    }
}

} // verus!
