use phases::{
    Array2d, Array3d, ArrayLatice, BinAtom, BinConcentration, Energies, FastArray, Lattice,
    Storage, System,
};

const TABLE: [i32; 4] = [-4, 3, 3, -1];

type Grid = Array2d<BinAtom, 4, 4>;

fn stripes(idx: (isize, isize)) -> BinAtom {
    if idx.0 < 2 {
        BinAtom::new(0)
    } else {
        BinAtom::new(1)
    }
}

fn pair(table: &[i32; 4], a: BinAtom, b: BinAtom) -> i64 {
    if a.0 == 4 || b.0 == 4 {
        0
    } else {
        table[(2 * a.0 + b.0) as usize] as i64
    }
}

/// The energy of a 2D grid of the given width, summed bond by bond.
fn from_scratch(table: &[i32; 4], cells: &[BinAtom], width: usize) -> i64 {
    let height = cells.len() / width;
    let mut energy = 0;
    for y in 0..height {
        for x in 0..width {
            let here = cells[y * width + x];
            let left = cells[y * width + (x + width - 1) % width];
            let up = cells[((y + height - 1) % height) * width + x];
            energy += pair(table, here, left) + pair(table, here, up);
        }
    }
    energy
}

fn barrier_at(step: u32) -> i64 {
    // a fixed succession of barriers between 0 and 15
    ((step.wrapping_mul(2654435761) >> 7) % 16) as i64
}

#[test]
fn table_gives_pair_energies_and_none_to_a_vacancy() {
    let zero = BinAtom::new(0);
    let one = BinAtom::new(1);
    let empty = <BinAtom as phases::RandAtom>::vacancy();
    assert_eq!(TABLE.get_interaction_energy(zero, zero), -4);
    assert_eq!(TABLE.get_interaction_energy(zero, one), 3);
    assert_eq!(TABLE.get_interaction_energy(one, zero), 3);
    assert_eq!(TABLE.get_interaction_energy(one, one), -1);
    assert_eq!(TABLE.get_interaction_energy(empty, one), 0);
    assert_eq!(TABLE.get_interaction_energy(zero, empty), 0);
    assert_eq!(TABLE.get_interaction_energy(empty, empty), 0);
}

#[test]
fn internal_energy_counts_every_bond_once() {
    let mut sys = System::<Grid, [i32; 4]>::with_lattice(TABLE, Some("e"), Grid::fill_with_fn(stripes));
    assert_eq!(sys.tot_sites(), 16);
    assert_eq!(sys.internal_energy(), -36);
    assert_eq!(sys.internal_energy(), -36);
    let mut ones = System::<Grid, [i32; 4]>::with_lattice(
        TABLE,
        Some("e"),
        Grid::fill_value(BinAtom::new(1)),
    );
    assert_eq!(ones.internal_energy(), -32);
    let mut cube = System::<Array3d<BinAtom, 2, 2, 2>, [i32; 4]>::with_lattice(
        TABLE,
        None,
        Array3d::fill_value(BinAtom::new(0)),
    );
    assert_eq!(cube.internal_energy(), -96);
    let mut fast = System::<FastArray<BinAtom, 4, 2>, [i32; 4]>::with_lattice(
        TABLE,
        None,
        FastArray::fill_with_fn(|idx: (usize, usize)| BinAtom::new((idx.0 / 2) as u8)),
    );
    assert_eq!(fast.internal_energy(), -36);
}

#[test]
fn exchange_of_neighbours_keeps_the_energy_right() {
    let mut sys = System::<Grid, [i32; 4]>::with_lattice(TABLE, Some("e"), Grid::fill_with_fn(stripes));
    // sites (1, 0) and (2, 0) are neighbours and hold different species
    let accepted = sys.exchange((1, 0), (2, 0), i64::MAX);
    assert_eq!(accepted, Some(true));
    let cells: Vec<BinAtom> = sys.lattice().as_flat_slice().to_vec();
    assert_eq!(cells[1], BinAtom::new(1));
    assert_eq!(cells[2], BinAtom::new(0));
    let energy = sys.internal_energy();
    assert_eq!(energy, from_scratch(&TABLE, &cells, 4));
    assert_eq!(energy, -36 + 33);
}

#[test]
fn exchange_across_the_seam_keeps_the_energy_right() {
    let mut sys = System::<Grid, [i32; 4]>::with_lattice(TABLE, Some("e"), Grid::fill_with_fn(stripes));
    assert_eq!(sys.exchange((0, 3), (-1, 3), i64::MAX), Some(true));
    assert_eq!(sys.exchange((3, 3), (3, 4), i64::MAX), Some(true));
    assert_eq!(sys.exchange((2, 1), (0, 2), i64::MAX), Some(true));
    let cells: Vec<BinAtom> = sys.lattice().as_flat_slice().to_vec();
    assert_eq!(sys.internal_energy(), from_scratch(&TABLE, &cells, 4));
}

#[test]
fn exchange_proposes_nothing_for_equal_occupants() {
    let mut sys = System::<Grid, [i32; 4]>::with_lattice(TABLE, Some("e"), Grid::fill_with_fn(stripes));
    let before: Vec<BinAtom> = sys.lattice().as_flat_slice().to_vec();
    assert_eq!(sys.exchange((0, 0), (1, 2), i64::MAX), None);
    assert_eq!(sys.exchange((2, 0), (2, 0), i64::MAX), None);
    assert_eq!(sys.lattice().as_flat_slice(), &before[..]);
    assert_eq!(sys.internal_energy(), -36);
}

#[test]
fn rejected_exchange_changes_nothing() {
    let mut sys = System::<Grid, [i32; 4]>::with_lattice(TABLE, Some("e"), Grid::fill_with_fn(stripes));
    let before: Vec<BinAtom> = sys.lattice().as_flat_slice().to_vec();
    // this exchange raises the energy by 33: it is refused up to that barrier
    assert_eq!(sys.exchange((1, 0), (2, 0), 0), Some(false));
    assert_eq!(sys.exchange((1, 0), (2, 0), 33), Some(false));
    assert_eq!(sys.lattice().as_flat_slice(), &before[..]);
    assert_eq!(sys.internal_energy(), -36);
    assert_eq!(sys.vacancy(), None);
    assert_eq!(sys.exchange((1, 0), (2, 0), 34), Some(true));
    assert_eq!(sys.internal_energy(), -3);
}

#[test]
fn exchange_that_lowers_the_energy_needs_no_barrier() {
    let mut sys = System::<Grid, [i32; 4]>::with_lattice(TABLE, Some("e"), Grid::fill_with_fn(stripes));
    assert_eq!(sys.exchange((1, 0), (2, 0), i64::MAX), Some(true));
    assert_eq!(sys.exchange((1, 0), (2, 0), i64::MIN), Some(true));
    assert_eq!(sys.internal_energy(), -36);
}

#[test]
fn monte_carlo_swap_keeps_the_energy_right() {
    let mut sys = System::<Grid, [i32; 4]>::new(TABLE, Some("swaps"), BinConcentration::new(1, 1));
    let mut accepted = 0;
    for step in 0..2000 {
        let before: Vec<BinAtom> = sys.lattice().as_flat_slice().to_vec();
        let energy = sys.internal_energy();
        match sys.monte_carlo_swap(barrier_at(step)) {
            Some(true) => accepted += 1,
            _ => {
                assert_eq!(sys.lattice().as_flat_slice(), &before[..]);
                assert_eq!(sys.internal_energy(), energy);
            }
        }
        let cells: Vec<BinAtom> = sys.lattice().as_flat_slice().to_vec();
        assert_eq!(sys.internal_energy(), from_scratch(&TABLE, &cells, 4));
    }
    assert!(accepted > 0);
}

#[test]
fn end_to_end_vacancy_run_is_consistent_and_deterministic() {
    let mut finals: Vec<Vec<BinAtom>> = Vec::new();
    for _ in 0..2 {
        let mut sys =
            System::<Grid, [i32; 4]>::new(TABLE, Some("fixed seed"), BinConcentration::new(1, 1));
        for step in 0..1000 {
            sys.move_vacancy(barrier_at(step));
        }
        let cells: Vec<BinAtom> = sys.lattice().as_flat_slice().to_vec();
        assert_eq!(sys.internal_energy(), from_scratch(&TABLE, &cells, 4));
        finals.push(cells);
    }
    assert_eq!(finals[0], finals[1]);
}

#[test]
fn exactly_one_site_is_vacant_after_any_number_of_moves() {
    let mut sys = System::<Grid, [i32; 4]>::new(TABLE, Some("vacancy"), BinConcentration::new(3, 1));
    assert_eq!(sys.vacancy(), None);
    assert!(sys.lattice().as_flat_slice().iter().all(|a| a.0 <= 1));
    let mut accepted = 0;
    for step in 0..500 {
        let before: Vec<BinAtom> = sys.lattice().as_flat_slice().to_vec();
        let had = sys.vacancy();
        let energy = sys.internal_energy();
        let moved = sys.move_vacancy(barrier_at(step));
        let cells: Vec<BinAtom> = sys.lattice().as_flat_slice().to_vec();
        let vacant: Vec<usize> = (0..16).filter(|s| cells[*s].0 == 4).collect();
        assert_eq!(vacant.len(), 1);
        let at = sys.vacancy().unwrap();
        assert_eq!(vacant[0], (at.1 * 4 + at.0) as usize);
        if moved {
            accepted += 1;
        } else if had.is_some() {
            assert_eq!(cells, before);
            assert_eq!(sys.vacancy(), had);
            assert_eq!(sys.internal_energy(), energy);
        }
        assert_eq!(sys.internal_energy(), from_scratch(&TABLE, &cells, 4));
    }
    assert!(accepted > 0);
}

#[test]
fn vacancy_hops_to_a_neighbour_only() {
    let mut sys = System::<Grid, [i32; 4]>::with_lattice(TABLE, Some("hop"), Grid::fill_with_fn(stripes));
    sys.place_vacancy((5, -3));
    assert_eq!(sys.vacancy(), Some((1, 1)));
    assert_eq!(sys.lattice().get((1, 1)), BinAtom(4));
    // the site lost four bonds: three to its own species and one to the other
    assert_eq!(sys.internal_energy(), -36 + 4 + 4 + 4 - 3);
    for step in 0..200 {
        let from = sys.vacancy().unwrap();
        let moved = sys.move_vacancy(barrier_at(step));
        let to = sys.vacancy().unwrap();
        if moved {
            let dx = (to.0 - from.0).rem_euclid(4);
            let dy = (to.1 - from.1).rem_euclid(4);
            assert!((dx == 0 && (dy == 1 || dy == 3)) || (dy == 0 && (dx == 1 || dx == 3)));
        } else {
            assert_eq!(to, from);
        }
    }
}

#[test]
fn hop_vacancy_decides_by_the_energy_it_adds() {
    let mut sys = System::<Grid, [i32; 4]>::with_lattice(TABLE, Some("hop"), Grid::fill_with_fn(stripes));
    sys.place_vacancy((1, 1));
    let start = sys.internal_energy();
    // the atom of species 1 at (2, 1) would move among species 0: from -3 to 9
    assert!(!sys.hop_vacancy((2, 1), 12));
    assert_eq!(sys.vacancy(), Some((1, 1)));
    assert_eq!(sys.internal_energy(), start);
    assert!(sys.hop_vacancy((2, 1), 13));
    assert_eq!(sys.vacancy(), Some((2, 1)));
    assert_eq!(sys.lattice().get((1, 1)), BinAtom::new(1));
    assert_eq!(sys.internal_energy(), start + 12);
    let cells: Vec<BinAtom> = sys.lattice().as_flat_slice().to_vec();
    assert_eq!(sys.internal_energy(), from_scratch(&TABLE, &cells, 4));
    // moving back lowers the energy again and needs no barrier
    assert!(sys.hop_vacancy((1, 1), 0));
    assert_eq!(sys.internal_energy(), start);
}

#[test]
fn exchange_with_the_vacancy_moves_the_record() {
    let mut sys = System::<Grid, [i32; 4]>::with_lattice(TABLE, Some("mix"), Grid::fill_with_fn(stripes));
    sys.place_vacancy((0, 0));
    assert_eq!(sys.exchange((0, 0), (3, 2), i64::MAX), Some(true));
    assert_eq!(sys.vacancy(), Some((3, 2)));
    assert_eq!(sys.lattice().get((0, 0)), BinAtom::new(1));
    assert_eq!(sys.lattice().get((3, 2)), BinAtom(4));
    let cells: Vec<BinAtom> = sys.lattice().as_flat_slice().to_vec();
    assert_eq!(sys.internal_energy(), from_scratch(&TABLE, &cells, 4));
}

#[test]
fn moves_on_a_single_row_keep_the_energy_right() {
    // every site is its own neighbour along the axis of length one
    let mut sys = System::<Array2d<BinAtom, 5, 1>, [i32; 4]>::new(
        TABLE,
        Some("row"),
        BinConcentration::new(1, 1),
    );
    for step in 0..300 {
        sys.monte_carlo_swap(barrier_at(step));
        sys.move_vacancy(barrier_at(step + 1));
        let cells: Vec<BinAtom> = sys.lattice().as_flat_slice().to_vec();
        assert_eq!(sys.internal_energy(), from_scratch(&TABLE, &cells, 5));
        assert_eq!(cells.iter().filter(|a| a.0 == 4).count(), 1);
    }
}

#[test]
fn sampling_follows_the_weights() {
    let only_a = System::<Grid, [i32; 4]>::new(TABLE, Some("a"), BinConcentration::new(5, 0));
    assert!(only_a.lattice().as_flat_slice().iter().all(|a| a.0 == 0));
    let only_b = System::<Grid, [i32; 4]>::new(TABLE, Some("b"), BinConcentration::new(0, 2));
    assert!(only_b.lattice().as_flat_slice().iter().all(|a| a.0 == 1));
    let mixed = System::<Array2d<BinAtom, 32, 32>, [i32; 4]>::new(
        TABLE,
        Some("mixed"),
        BinConcentration::new(1, 3),
    );
    let zeros = mixed.lattice().as_flat_slice().iter().filter(|a| a.0 == 0).count();
    assert!(150 < zeros && zeros < 370);
    let even = System::<Array2d<BinAtom, 32, 32>, [i32; 4]>::sample(TABLE, Some("even"), None);
    let zeros = even.lattice().as_flat_slice().iter().filter(|a| a.0 == 0).count();
    assert!(400 < zeros && zeros < 624);
}

#[test]
fn system_frame_shows_the_occupants() {
    let mut sys = System::<Grid, [i32; 4]>::with_lattice(TABLE, Some("f"), Grid::fill_with_fn(stripes));
    sys.place_vacancy((3, 3));
    let frame = sys.get_frame();
    assert_eq!((frame.width, frame.height), (4, 4));
    assert_eq!(frame.pixels, vec![0, 0, 1, 1, 0, 0, 1, 1, 0, 0, 1, 1, 0, 0, 1, 4]);
}

#[test]
fn zero_temperature_lattice_never_gains_energy() {
    let mut lat = ArrayLatice::<BinAtom, 6, 6, [i32; 4]>::new(
        TABLE,
        Some("cold"),
        Some(BinConcentration::new(1, 1)),
    );
    let mut energy = lat.tot_energy();
    let mut swaps = 0;
    for _ in 0..3000 {
        let swapped = lat.swap_rand();
        let now = lat.tot_energy();
        assert!(now <= energy);
        if !swapped {
            assert_eq!(now, energy);
        } else {
            swaps += 1;
        }
        energy = now;
    }
    assert!(swaps > 0);
    let mut even = ArrayLatice::<BinAtom, 6, 6, [i32; 4]>::new(TABLE, Some("cold"), None);
    assert!(even.tot_energy() <= 3 * 72);
}

#[test]
fn zero_temperature_exchange_is_decided_by_the_energy() {
    let mut uphill = 0;
    let mut downhill = 0;
    for seed in ["a", "b", "c", "d", "e", "f", "g", "h"] {
        let mut lat = ArrayLatice::<BinAtom, 4, 4, [i32; 4]>::new(
            TABLE,
            Some(seed),
            Some(BinConcentration::new(1, 1)),
        );
        for x in 0..4 {
            let before = lat.tot_energy();
            let first = lat.swap_sites((x, 0), (x + 1, 1));
            let between = lat.tot_energy();
            let second = lat.swap_sites((x, 0), (x + 1, 1));
            let after = lat.tot_energy();
            if first {
                assert!(between <= before);
                // the way back adds what the way there took off
                assert_eq!(second, between == before);
                assert_eq!(after, between);
                if between < before {
                    downhill += 1;
                }
            } else {
                assert_eq!(between, before);
                assert!(!second);
                assert_eq!(after, before);
                uphill += 1;
            }
        }
    }
    assert!(uphill > 0 && downhill > 0);
    let mut same = ArrayLatice::<BinAtom, 4, 4, [i32; 4]>::new(
        TABLE,
        Some("same"),
        Some(BinConcentration::new(1, 0)),
    );
    assert!(same.swap_sites((0, 0), (2, 3)));
    assert!(same.swap_sites((1, 1), (1, 1)));
    assert_eq!(same.tot_energy(), -4 * 32);
}

#[test]
fn a_species_of_weight_zero_is_never_placed() {
    let mut sys = System::<Grid, [i32; 4]>::new(TABLE, Some("seed"), BinConcentration::new(1, 0));
    assert_eq!(sys.tot_sites(), 16);
    assert_eq!(sys.vacancy(), None);
    assert!(sys.lattice().as_flat_slice().iter().all(|a| a.0 == 0));
    // 32 bonds of -4
    assert_eq!(sys.internal_energy(), -128);
    // every hop in a uniform lattice adds nothing and is taken; the vacancy has no bonds
    assert!(sys.move_vacancy(0));
    assert_eq!(sys.internal_energy(), -112);
    assert_eq!(sys.lattice().as_flat_slice().iter().filter(|a| a.0 == 0).count(), 15);
    assert_eq!(sys.lattice().as_flat_slice().iter().filter(|a| a.0 == 4).count(), 1);
    let cold = ArrayLatice::<BinAtom, 4, 4, [i32; 4]>::new(
        TABLE,
        Some("seed"),
        Some(BinConcentration::new(0, 3)),
    );
    let mut cold = cold;
    assert_eq!(cold.tot_energy(), -32);
}
