use ns_ann::error::LshError;
use ns_ann::lsh::{fits_in_usize, similar_bin, ConstructionMethod, RandomProjection, Sign, LSH};

use Sign::{Negative, Positive};

fn planes(nb: usize, dim: usize) -> Vec<Vec<f32>> {
    (0..nb).map(|j| (0..dim).map(|k| if k == j % dim { 1.0 } else { 0.0 }).collect()).collect()
}

#[test]
fn test_sign_to_usize() {
    let arr = [Positive, Negative, Negative, Positive, Positive];
    assert_eq!(Sign::to_usize(&arr), 0b11001);
}

#[test]
fn packing_puts_position_zero_in_the_low_bit() {
    assert_eq!(Sign::to_usize(&[Negative, Negative, Negative, Positive, Positive]), 0b11000);
    assert_eq!(Sign::to_usize(&[Positive]), 1);
    assert_eq!(Sign::to_usize(&[]), 0);
}

#[test]
fn packing_a_full_word() {
    let all = vec![Positive; 64];
    assert_eq!(Sign::to_usize(&all), usize::MAX);
    let mut top = vec![Negative; 64];
    top[63] = Positive;
    assert_eq!(Sign::to_usize(&top), 1usize << 63);
}

#[test]
fn sign_bits_and_default() {
    assert_eq!(Positive.to_bit(), 1);
    assert_eq!(Negative.to_bit(), 0);
    assert_eq!(Sign::default(), Negative);
}

#[test]
fn word_size_gate() {
    assert!(fits_in_usize(ConstructionMethod::Concatenate, 64));
    assert!(!fits_in_usize(ConstructionMethod::Concatenate, 65));
    assert!(fits_in_usize(ConstructionMethod::Tree, 65));
    assert!(fits_in_usize(ConstructionMethod::Tree, usize::MAX));
}

#[test]
fn too_wide_concatenation_is_refused() {
    let r = RandomProjection::new(planes(65, 4), ConstructionMethod::Concatenate);
    assert_eq!(r.err(), Some(LshError::ConfigurationTooWide));
    let r = RandomProjection::new(planes(65, 4), ConstructionMethod::Tree);
    assert!(r.is_ok());
}

#[test]
fn hyperplanes_of_unequal_dimension_are_refused() {
    let mut hp = planes(3, 4);
    hp[2].push(0.5);
    let r = RandomProjection::new(hp, ConstructionMethod::Concatenate);
    assert_eq!(r.err(), Some(LshError::ShapeMismatch));
    let r = RandomProjection::new(vec![Vec::<f32>::new()], ConstructionMethod::Tree);
    assert_eq!(r.err(), Some(LshError::ShapeMismatch));
}

#[test]
fn concatenate_bin_packs_every_sign() {
    let h = RandomProjection::new(planes(4, 4), ConstructionMethod::Concatenate).unwrap();
    assert_eq!(h.bin_bits(), 4);
    assert_eq!(h.bin(&[Positive, Negative, Positive, Positive]), 0b1101);
    assert_eq!(h.bin(&[Negative, Negative, Negative, Negative]), 0);
}

#[test]
fn tree_bin_follows_the_descent() {
    let h = RandomProjection::new(planes(4, 4), ConstructionMethod::Tree).unwrap();
    assert_eq!(h.bin_bits(), 2);
    // Root positive: right child, node 2, positive again.
    assert_eq!(h.bin(&[Positive, Negative, Positive, Negative]), 0b11);
    // Root negative: left child, node 1, positive.
    assert_eq!(h.bin(&[Negative, Positive, Negative, Negative]), 0b10);
    // Root negative, node 1 negative.
    assert_eq!(h.bin(&[Negative, Negative, Positive, Positive]), 0b00);
}

#[test]
fn tree_past_the_last_hyperplane_reads_negative() {
    let h = RandomProjection::new(planes(5, 5), ConstructionMethod::Tree).unwrap();
    assert_eq!(h.bin_bits(), 3);
    // Nodes 0 and 2 are positive; node 6 does not exist.
    assert_eq!(h.bin(&[Positive; 5]), 0b011);
}

#[test]
fn tree_depth_is_the_ceiling_of_log2() {
    for (nb, bits) in [(1usize, 0usize), (2, 1), (3, 2), (4, 2), (5, 3), (8, 3), (9, 4)] {
        let h = RandomProjection::new(planes(nb, 2), ConstructionMethod::Tree).unwrap();
        assert_eq!(h.bin_bits(), bits);
    }
}

#[test]
fn hashing_twice_gives_the_same_bin() {
    let h = RandomProjection::new(planes(6, 3), ConstructionMethod::Concatenate).unwrap();
    let s = [Positive, Negative, Negative, Positive, Negative, Positive];
    assert_eq!(h.bin(&s), h.bin(&s));
    let t = RandomProjection::new(planes(6, 3), ConstructionMethod::Tree).unwrap();
    assert_eq!(t.bin(&s), t.bin(&s));
}

#[test]
fn one_hyperplane_gives_two_bins() {
    let h = RandomProjection::new(planes(1, 3), ConstructionMethod::Concatenate).unwrap();
    assert_eq!(h.bin_bits(), 1);
    assert_eq!(h.bin(&[Negative]), 0);
    assert_eq!(h.bin(&[Positive]), 1);
}

#[test]
fn accessors_return_what_was_given() {
    let hp = planes(3, 2);
    let h = RandomProjection::new(hp.clone(), ConstructionMethod::Tree).unwrap();
    assert_eq!(h.hyperplanes(), &hp);
    assert_eq!(h.method(), ConstructionMethod::Tree);
}

#[test]
fn similar_bin_flips_one_bit() {
    assert_eq!(similar_bin(0b101, 1), 0b111);
    assert_eq!(similar_bin(0b101, 0), 0b100);
    assert_eq!(similar_bin(0, 63), 1usize << 63);
}
