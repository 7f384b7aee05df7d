use phases::{
    new_rng, Array2d, ClusterCounter, Energies, Lattice, Mark, NumAtom, NumC, RandAtom, Storage,
    System,
};
use std::collections::BTreeMap;

type Atom = NumAtom<3>;
type Grid = Array2d<Atom, 4, 3>;

const TABLE: [[i32; 3]; 3] = [[-2, 6, -4], [6, -2, 1], [-4, 1, 0]];

fn pattern(idx: (isize, isize)) -> Atom {
    Atom::new(((idx.0 + 2 * idx.1) % 3) as u8)
}

fn pair(a: Atom, b: Atom) -> i64 {
    if a.0 < 3 && b.0 < 3 {
        TABLE[a.0 as usize][b.0 as usize] as i64
    } else {
        0
    }
}

fn from_scratch(cells: &[Atom], width: usize) -> i64 {
    let height = cells.len() / width;
    let mut energy = 0;
    for y in 0..height {
        for x in 0..width {
            let here = cells[y * width + x];
            let left = cells[y * width + (x + width - 1) % width];
            let up = cells[((y + height - 1) % height) * width + x];
            energy += pair(here, left) + pair(here, up);
        }
    }
    energy
}

#[test]
fn numbered_atoms_have_a_byte_each() {
    assert_eq!(Atom::new(2).value(), 2);
    assert_eq!(Atom::vacancy().value(), 64);
    assert_eq!(Atom::all_atoms(), vec![Atom::new(0), Atom::new(1), Atom::new(2)]);
    let mut atom = Atom::new(2);
    atom.mark();
    assert!(atom.is_marked());
    assert_eq!(atom.0, 0b1000_0010);
    atom.unmark();
    assert_eq!(atom, Atom::new(2));
}

#[test]
fn numbered_atoms_are_picked_by_cumulated_weights() {
    let cs = NumC::<3>::new([2, 0, 3]);
    assert_eq!(cs.get_cs(), vec![2, 0, 3]);
    let picked: Vec<u8> = (0..5).map(|draw| Atom::pick(cs, draw).0).collect();
    assert_eq!(picked, vec![0, 0, 2, 2, 2]);
    let mut rng = new_rng(Some("numbered"));
    let mut seen = [0; 3];
    for _ in 0..900 {
        let drawn = Atom::with_concentration(&mut rng, cs);
        assert_ne!(drawn.0, 1);
        seen[Atom::uniform(&mut rng).0 as usize] += 1;
    }
    assert!(seen.iter().all(|count| 200 < *count && *count < 400));
}

#[test]
fn table_of_three_species_gives_pair_energies() {
    assert_eq!(TABLE.get_interaction_energy(Atom::new(0), Atom::new(1)), 6);
    assert_eq!(TABLE.get_interaction_energy(Atom::new(2), Atom::new(0)), -4);
    assert_eq!(TABLE.get_interaction_energy(Atom::new(2), Atom::new(2)), 0);
    assert_eq!(TABLE.get_interaction_energy(Atom::vacancy(), Atom::new(1)), 0);
    assert_eq!(TABLE.get_interaction_energy(Atom::new(1), Atom::vacancy()), 0);
}

#[test]
fn three_species_keep_the_energy_right() {
    let mut sys =
        System::<Grid, [[i32; 3]; 3]>::with_lattice(TABLE, Some("three"), Grid::fill_with_fn(pattern));
    let cells: Vec<Atom> = sys.lattice().as_flat_slice().to_vec();
    assert_eq!(sys.internal_energy(), from_scratch(&cells, 4));
    for step in 0..600u32 {
        let barrier = (step % 9) as i64;
        if step % 2 == 0 {
            sys.move_vacancy(barrier);
        } else {
            sys.monte_carlo_swap(barrier);
        }
        let cells: Vec<Atom> = sys.lattice().as_flat_slice().to_vec();
        assert_eq!(sys.internal_energy(), from_scratch(&cells, 4));
        assert_eq!(cells.iter().filter(|a| a.0 == 64).count(), 1);
    }
}

#[test]
fn three_species_are_sampled_and_counted() {
    let mut sys = System::<Array2d<Atom, 8, 8>, [[i32; 3]; 3]>::new(
        TABLE,
        Some("sampled"),
        NumC::new([1, 1, 2]),
    );
    let cells: Vec<Atom> = sys.lattice().as_flat_slice().to_vec();
    assert!(cells.iter().all(|a| a.0 < 3));
    let all = sys.count_all_clusters();
    assert_eq!(all.len(), 3);
    for species in 0..3u8 {
        let sites: u32 = all[species as usize].ref_map().iter().map(|(s, c)| s * c).sum();
        assert_eq!(sites as usize, cells.iter().filter(|a| a.0 == species).count());
    }
    assert_eq!(sys.lattice().as_flat_slice(), &cells[..]);
    let even = System::<Array2d<Atom, 8, 8>, [[i32; 3]; 3]>::sample(TABLE, Some("even"), None);
    assert!(even.lattice().as_flat_slice().iter().all(|a| a.0 < 3));
}

#[test]
fn clusters_of_three_species_on_a_known_grid() {
    // rows: 0 1 2 0 / 2 0 1 2 / 1 2 0 1
    let mut lat = Grid::fill_with_fn(pattern);
    let found = lat.count_clusters(Atom::new(0));
    let mut expected = BTreeMap::new();
    expected.insert(2, 1);
    expected.insert(1, 2);
    assert_eq!(found.as_map(), expected);
    let slice = lat.as_flat_slice_mut();
    slice[0] = Atom::new(1);
    assert_eq!(lat.get((0, 0)), Atom::new(1));
    assert_eq!(lat.all_neighbors().iter().map(|entry| entry.1).sum::<u32>(), 24);
}
