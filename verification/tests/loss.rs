//! Lost outcomes are replaced by random bits; measured ones stay.
use deq_runtime::bit_vector::{get_bit, BitVector};
use deq_runtime::coordinator::apply_loss_random_imputation;
use deq_runtime::generator::Generator;

#[test]
fn apply_loss_random_imputation_leaves_non_loss_bits_untouched() {
    // outcomes = [1, 0, 1, 0], loss_mask = [0, 0, 0, 0]
    let mut outcomes = BitVector { size: 4, data: vec![0b1010_0000] };
    let loss_mask = BitVector { size: 4, data: vec![0b0000_0000] };
    let mut rng = Generator::new(42);

    let before = outcomes.clone();
    apply_loss_random_imputation(&mut outcomes, &loss_mask, &mut rng);
    assert_eq!(
        outcomes, before,
        "no loss_mask bits set, so no imputation: outcomes must stay byte-identical",
    );
}

#[test]
fn apply_loss_random_imputation_only_replaces_marked_bits() {
    // bits 0 and 2 must stay at their input values; bits 1 and 3 must take both
    // values over the trials
    let mut rng = Generator::new(1);
    let loss_mask = BitVector { size: 4, data: vec![0b0101_0000] };
    let mut bit1_zero_count = 0usize;
    let mut bit3_zero_count = 0usize;
    let trials = 1000usize;
    for _ in 0..trials {
        let mut outcomes = BitVector { size: 4, data: vec![0b1010_0000] };
        apply_loss_random_imputation(&mut outcomes, &loss_mask, &mut rng);
        assert!(get_bit(&outcomes, 0), "bit 0 not in loss_mask, must be preserved");
        assert!(get_bit(&outcomes, 2), "bit 2 not in loss_mask, must be preserved");
        if !get_bit(&outcomes, 1) {
            bit1_zero_count += 1;
        }
        if !get_bit(&outcomes, 3) {
            bit3_zero_count += 1;
        }
    }
    let lo = trials / 4;
    let hi = 3 * trials / 4;
    assert!(
        (lo..hi).contains(&bit1_zero_count),
        "bit 1 imputed zero {bit1_zero_count}/{trials} times; expected roughly balanced",
    );
    assert!(
        (lo..hi).contains(&bit3_zero_count),
        "bit 3 imputed zero {bit3_zero_count}/{trials} times; expected roughly balanced",
    );
}

#[test]
fn apply_loss_random_imputation_is_deterministic_with_same_seed() {
    let loss_mask = BitVector { size: 8, data: vec![0b1111_1111] };
    let initial = BitVector { size: 8, data: vec![0b0000_0000] };

    let mut a = initial.clone();
    let mut rng_a = Generator::new(123);
    apply_loss_random_imputation(&mut a, &loss_mask, &mut rng_a);

    let mut b = initial.clone();
    let mut rng_b = Generator::new(123);
    apply_loss_random_imputation(&mut b, &loss_mask, &mut rng_b);

    assert_eq!(a, b, "same seed, identical imputation");
}

#[test]
fn a_seed_fixes_the_bits() {
    let mut rng = Generator::new(42);
    let bits: Vec<bool> = (0..8).map(|_| rng.draw()).collect();
    assert_eq!(bits, vec![true, false, true, true, true, true, false, true]);
    let mut other = Generator::new(7);
    let bits: Vec<bool> = (0..8).map(|_| other.draw()).collect();
    assert_eq!(bits, vec![false, false, true, false, true, false, true, false]);
}

#[test]
fn lost_bits_are_drawn_in_order() {
    // bits 1, 2 and 5 are lost, and take the first three bits of the generator: 1, 0, 1
    let mut outcomes = BitVector { size: 8, data: vec![0b1000_0001] };
    let loss_mask = BitVector { size: 8, data: vec![0b0110_0100] };
    let mut rng = Generator::new(42);
    apply_loss_random_imputation(&mut outcomes, &loss_mask, &mut rng);
    assert_eq!(outcomes, BitVector { size: 8, data: vec![0b1100_0101] });
    assert!(rng.draw(), "the fourth bit comes next");
}
