use phases::modular_array::{diagonal_step, draw_diagonal_step};
use phases::weights::{draw_weighted, pick_weighted, total_weight_of};
use phases::{
    new_rng, BinAtom, BinAtoms, BinConcentration, RandAtom, TerAtoms, TerConcentration, TriAtoms,
};

#[test]
fn pick_weighted_lays_the_weights_end_to_end() {
    let weights = vec![2, 0, 3, 1];
    assert_eq!(total_weight_of(&weights), 6);
    let picked: Vec<usize> = (0..6).map(|draw| pick_weighted(&weights, draw)).collect();
    assert_eq!(picked, vec![0, 0, 2, 2, 2, 3]);
    assert_eq!(pick_weighted(&vec![u32::MAX, u32::MAX], u32::MAX as u64), 1);
    assert_eq!(total_weight_of(&Vec::new()), 0);
}

#[test]
fn draw_weighted_never_picks_a_weightless_entry() {
    let weights = vec![0, 5, 0, 1, 0];
    let mut rng = new_rng(Some("weights"));
    let mut hits = [0; 5];
    for _ in 0..600 {
        hits[draw_weighted(&mut rng, &weights)] += 1;
    }
    assert_eq!(hits[0] + hits[2] + hits[4], 0);
    assert!(hits[1] > hits[3] && hits[3] > 0);
}

#[test]
fn binary_atoms_are_picked_by_the_first_weight() {
    let cs = BinConcentration::new(2, 3);
    assert_eq!(cs.get_c_a(), 2);
    assert_eq!(BinAtom::pick(cs, 0), BinAtom::new(0));
    assert_eq!(BinAtom::pick(cs, 1), BinAtom::new(0));
    assert_eq!(BinAtom::pick(cs, 2), BinAtom::new(1));
    assert_eq!(BinAtom::pick(cs, 4), BinAtom::new(1));
    assert_eq!(BinAtoms::pick(cs, 1), BinAtoms::A);
    assert_eq!(BinAtoms::pick(cs, 2), BinAtoms::B);
    assert_eq!(BinAtoms::of_coin(true), BinAtoms::A);
    assert_eq!(BinAtoms::of_coin(false), BinAtoms::B);
    assert_eq!((BinAtoms::A.byte(), BinAtoms::B.byte()), (0, 1));
    assert_eq!(BinAtoms::default(), BinAtoms::A);
    assert_eq!(BinAtom::default(), BinAtom::new(0));
}

#[test]
fn binary_atoms_are_drawn_with_their_weights() {
    let mut rng = new_rng(Some("binary"));
    for _ in 0..50 {
        assert_eq!(BinAtom::with_concentration(&mut rng, BinConcentration::new(1, 0)).0, 0);
        assert_eq!(BinAtom::with_concentration(&mut rng, BinConcentration::new(0, 1)).0, 1);
        assert_eq!(BinAtoms::with_concentration(&mut rng, BinConcentration::new(4, 0)), BinAtoms::A);
        assert_eq!(BinAtoms::with_concentration(&mut rng, BinConcentration::new(0, 4)), BinAtoms::B);
    }
    let mut zeros = 0;
    let mut heads = 0;
    for _ in 0..1000 {
        if BinAtom::uniform(&mut rng).0 == 0 {
            zeros += 1;
        }
        if BinAtoms::uniform(&mut rng) == BinAtoms::A {
            heads += 1;
        }
    }
    assert!(400 < zeros && zeros < 600);
    assert!(400 < heads && heads < 600);
    assert_eq!(BinAtom::all_atoms(), vec![BinAtom::new(0), BinAtom::new(1)]);
    assert_eq!(BinAtom::vacancy().value(), 4);
}

#[test]
fn ternary_atoms_are_picked_by_cumulated_weights() {
    let cs = TerConcentration::new(1, 2, 3);
    let picked: Vec<TerAtoms> = (0..6).map(|draw| TerAtoms::pick(cs, draw)).collect();
    assert_eq!(
        picked,
        vec![TerAtoms::A, TerAtoms::B, TerAtoms::B, TerAtoms::C, TerAtoms::C, TerAtoms::C]
    );
    let picked: Vec<TriAtoms> = (0..4).map(|draw| TriAtoms::pick((1, 2), draw)).collect();
    assert_eq!(picked, vec![TriAtoms::A, TriAtoms::B, TriAtoms::B, TriAtoms::C]);
    assert_eq!((TerAtoms::A.byte(), TerAtoms::B.byte(), TerAtoms::C.byte()), (0, 1, 2));
    assert_eq!((TriAtoms::A.byte(), TriAtoms::B.byte(), TriAtoms::C.byte()), (0, 1, 2));
    assert_eq!(TerAtoms::default(), TerAtoms::A);
    assert_eq!(TriAtoms::default(), TriAtoms::A);
    let even = TerConcentration::uniform();
    assert_eq!((even.n_a, even.n_b, even.n_c), (1, 1, 1));
}

#[test]
fn ternary_atoms_are_drawn_with_their_weights() {
    let mut rng = new_rng(Some("ternary"));
    let mut seen = [0; 3];
    for _ in 0..900 {
        assert_ne!(
            TerAtoms::with_concentration(&mut rng, TerConcentration::new(1, 0, 1)),
            TerAtoms::B
        );
        assert_eq!(TriAtoms::with_concentration(&mut rng, (0, 0), 5), TriAtoms::C);
        assert_ne!(TriAtoms::with_concentration(&mut rng, (2, 3), 5), TriAtoms::C);
        seen[TerAtoms::uniform(&mut rng).byte() as usize] += 1;
        assert!(TriAtoms::uniform(&mut rng).byte() < 3);
    }
    assert!(seen.iter().all(|count| 200 < *count && *count < 400));
}

#[test]
fn diagonal_steps_go_one_cell_along_each_axis() {
    assert_eq!(diagonal_step(true, true), (1, 1));
    assert_eq!(diagonal_step(true, false), (1, -1));
    assert_eq!(diagonal_step(false, true), (-1, 1));
    assert_eq!(diagonal_step(false, false), (-1, -1));
    let mut rng = new_rng(Some("steps"));
    let mut seen = Vec::new();
    for _ in 0..200 {
        let step = draw_diagonal_step(&mut rng);
        assert!(step.0.abs() == 1 && step.1.abs() == 1);
        if !seen.contains(&step) {
            seen.push(step);
        }
    }
    assert_eq!(seen.len(), 4);
}

#[test]
fn an_unseeded_generator_can_be_drawn_from() {
    let mut rng = new_rng(None);
    for _ in 0..10 {
        assert!(draw_weighted(&mut rng, &vec![1, 1, 1]) < 3);
    }
}

#[test]
fn streaming_statistics_are_exact() {
    let mut stats = phases::StreamingStats::new();
    for sample in [1, 2, 3, 4] {
        assert!(stats.add_value(sample));
    }
    assert_eq!(stats.count(), 4);
    // mean 10 / 4 = 2.5, variance 20 / 16 = 1.25
    assert_eq!(stats.avg(), (10, 4));
    assert_eq!(stats.variance(), Some((20, 16)));
    let mut single = phases::StreamingStats::new();
    assert!(single.add_value(-7));
    assert_eq!(single.avg(), (-7, 1));
    assert_eq!(single.variance(), Some((0, 1)));
}

#[test]
fn streaming_statistics_refuse_what_they_cannot_hold() {
    let mut stats = phases::StreamingStats::new();
    for _ in 0..3 {
        assert!(stats.add_value(i64::MIN));
    }
    // a fourth square of this size no longer fits
    assert!(!stats.add_value(i64::MIN));
    assert!(stats.add_value(5));
    assert_eq!(stats.count(), 4);
    assert_eq!(stats.avg(), (3 * (i64::MIN as i128) + 5, 4));
    assert_eq!(stats.variance(), None);
    let mut negative = phases::StreamingStats::new();
    assert!(negative.add_value(-3));
    assert!(negative.add_value(-5));
    assert_eq!(negative.avg(), (-8, 2));
    assert_eq!(negative.variance(), Some((4, 4)));
}

#[test]
fn species_are_written_out_as_bytes() {
    assert_eq!(BinAtoms::to_bytes(&vec![BinAtoms::B, BinAtoms::A, BinAtoms::B]), vec![1, 0, 1]);
    assert_eq!(TerAtoms::to_bytes(&vec![TerAtoms::C, TerAtoms::A, TerAtoms::B]), vec![2, 0, 1]);
    assert_eq!(TriAtoms::to_bytes(&vec![TriAtoms::A, TriAtoms::C]), vec![0, 2]);
    assert_eq!(BinAtoms::to_bytes(&Vec::new()), Vec::<u8>::new());
}
