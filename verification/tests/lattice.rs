use phases::torus::wrap_coord;
use phases::{
    new_rng, Array2d, Array3d, BinAtom, FastArray, GifFrame, Lattice, ModularArray, ModularGrid,
    Storage,
};

fn stripes(idx: (isize, isize)) -> BinAtom {
    if idx.0 < 2 {
        BinAtom::new(0)
    } else {
        BinAtom::new(1)
    }
}

fn count_of(pairs: &[((BinAtom, BinAtom), u32)], a: u8, b: u8) -> u32 {
    pairs
        .iter()
        .filter(|entry| (entry.0).0 .0 == a && (entry.0).1 .0 == b)
        .map(|entry| entry.1)
        .sum()
}

#[test]
fn reduce_index_wraps_negative_coordinates() {
    let lat = Array2d::<BinAtom, 4, 3>::fill_value(BinAtom::new(0));
    assert_eq!(lat.reduce_index((-1, -1)), (3, 2));
    assert_eq!(lat.reduce_index((4, 3)), (0, 0));
    assert_eq!(lat.reduce_index((2, 1)), (2, 1));
    assert_eq!(lat.reduce_index((-9, 7)), (3, 1));
}

#[test]
fn reduce_index_is_periodic_on_every_axis() {
    let lat = Array3d::<BinAtom, 4, 3, 5>::fill_value(BinAtom::new(0));
    for k in -3isize..4 {
        for c in 0isize..3 {
            assert_eq!(lat.reduce_index((c + k * 4, c + k * 3, c + k * 5)), (c, c, c));
        }
    }
    assert_eq!(lat.reduce_index((-1, -1, -1)), (3, 2, 4));
}

#[test]
fn fast_array_masks_indices() {
    let lat = FastArray::<BinAtom, 8, 3>::fill_value(BinAtom::new(1));
    assert_eq!(lat.reduce_index((9, 17)), (1, 1));
    assert_eq!(lat.reduce_index((usize::MAX, 8)), (7, 0));
    assert_eq!(lat.tot_sites(), 64);
    assert_eq!(
        lat.all_neighbors_to((0, 0)),
        vec![(1, 0), (0, 1), (usize::MAX, 0), (0, usize::MAX)]
    );
    assert_eq!(lat.get((usize::MAX, 0)), BinAtom::new(1));
}

#[test]
fn indices_that_wrap_to_one_site_are_one_site() {
    let mut lat = Array2d::<BinAtom, 4, 4>::fill_value(BinAtom::new(0));
    lat.set((-1, 5), BinAtom::new(1));
    assert_eq!(lat.get((3, 1)), BinAtom::new(1));
    assert_eq!(lat.get((7, -3)), BinAtom::new(1));
    assert_eq!(lat.as_flat_slice()[1 * 4 + 3], BinAtom::new(1));
    let ones = lat.as_flat_slice().iter().filter(|a| a.0 == 1).count();
    assert_eq!(ones, 1);
}

#[test]
fn fill_with_fn_visits_every_site_once() {
    let lat = Array2d::<BinAtom, 4, 4>::fill_with_fn(stripes);
    let flat: Vec<u8> = lat.as_flat_slice().iter().map(|a| a.0).collect();
    assert_eq!(flat, vec![0, 0, 1, 1, 0, 0, 1, 1, 0, 0, 1, 1, 0, 0, 1, 1]);
    let cube = Array3d::<BinAtom, 2, 2, 2>::fill_with_fn(|idx: (isize, isize, isize)| {
        BinAtom::new(((idx.0 + idx.1 + idx.2) % 2) as u8)
    });
    let flat: Vec<u8> = cube.as_flat_slice().iter().map(|a| a.0).collect();
    assert_eq!(flat, vec![0, 1, 1, 0, 1, 0, 0, 1]);
    let fast = FastArray::<BinAtom, 2, 1>::fill_with_fn(|idx: (usize, usize)| {
        BinAtom::new((idx.0 & 1) as u8)
    });
    let flat: Vec<u8> = fast.as_flat_slice().iter().map(|a| a.0).collect();
    assert_eq!(flat, vec![0, 1, 0, 1]);
}

#[test]
fn new_grids_hold_the_default_everywhere() {
    let lat = Array2d::<BinAtom, 3, 2>::new();
    assert_eq!(lat.as_flat_slice(), &[BinAtom::new(0); 6][..]);
    let cube = Array3d::<BinAtom, 3, 2, 2>::new();
    assert_eq!(cube.tot_sites(), 12);
    assert!(cube.as_flat_slice().iter().all(|a| a.0 == 0));
    let fast = FastArray::<BinAtom, 4, 2>::new();
    assert_eq!(fast.tot_sites(), 16);
    assert!(fast.as_flat_slice().iter().all(|a| a.0 == 0));
}

#[test]
fn all_idxs_lists_sites_row_by_row() {
    let lat = Array2d::<BinAtom, 3, 2>::fill_value(BinAtom::new(0));
    assert_eq!(lat.all_idxs(), vec![(0, 0), (1, 0), (2, 0), (0, 1), (1, 1), (2, 1)]);
    let cube = Array3d::<BinAtom, 2, 1, 2>::fill_value(BinAtom::new(0));
    assert_eq!(cube.all_idxs(), vec![(0, 0, 0), (1, 0, 0), (0, 0, 1), (1, 0, 1)]);
    let fast = FastArray::<BinAtom, 2, 1>::fill_value(BinAtom::new(0));
    assert_eq!(fast.all_idxs(), vec![(0, 0), (1, 0), (0, 1), (1, 1)]);
}

#[test]
fn neighbours_are_listed_unwrapped() {
    let lat = Array2d::<BinAtom, 4, 4>::fill_value(BinAtom::new(0));
    assert_eq!(lat.all_neighbors_to((0, 3)), vec![(1, 3), (-1, 3), (0, 4), (0, 2)]);
    let cube = Array3d::<BinAtom, 2, 2, 2>::fill_value(BinAtom::new(0));
    assert_eq!(
        cube.all_neighbors_to((1, 0, 1)),
        vec![(2, 0, 1), (0, 0, 1), (1, 1, 1), (1, -1, 1), (1, 0, 2), (1, 0, 0)]
    );
}

#[test]
fn swap_vals_exchanges_two_sites_only() {
    let mut lat = Array2d::<BinAtom, 4, 4>::fill_with_fn(stripes);
    let before: Vec<BinAtom> = lat.as_flat_slice().to_vec();
    lat.swap_vals((1, 0), (-2, 4));
    let after: Vec<BinAtom> = lat.as_flat_slice().to_vec();
    assert_eq!(after[1], BinAtom::new(1));
    assert_eq!(after[2], BinAtom::new(0));
    for s in 0..16 {
        if s != 1 && s != 2 {
            assert_eq!(after[s], before[s]);
        }
    }
    lat.swap_vals((1, 0), (2, 0));
    assert_eq!(lat.as_flat_slice(), &before[..]);
}

#[test]
fn all_neighbors_counts_every_bond_once() {
    let lat = Array2d::<BinAtom, 4, 4>::fill_with_fn(stripes);
    let pairs = lat.all_neighbors();
    let total: u32 = pairs.iter().map(|entry| entry.1).sum();
    assert_eq!(total, 32);
    assert_eq!(count_of(&pairs, 0, 0), 4 + 8);
    assert_eq!(count_of(&pairs, 1, 1), 4 + 8);
    assert_eq!(count_of(&pairs, 0, 1), 4);
    assert_eq!(count_of(&pairs, 1, 0), 4);
    for i in 0..pairs.len() {
        assert!(pairs[i].1 > 0);
        for j in 0..i {
            assert_ne!(pairs[i].0, pairs[j].0);
        }
    }
}

#[test]
fn all_neighbors_of_a_cube_counts_three_bonds_per_site() {
    let cube = Array3d::<BinAtom, 2, 3, 2>::fill_value(BinAtom::new(1));
    let pairs = cube.all_neighbors();
    assert_eq!(pairs, vec![((BinAtom::new(1), BinAtom::new(1)), 36)]);
    let fast = FastArray::<BinAtom, 4, 2>::fill_with_fn(|idx: (usize, usize)| {
        BinAtom::new((idx.0 & 1) as u8)
    });
    let pairs = fast.all_neighbors();
    assert_eq!(count_of(&pairs, 0, 1), 8);
    assert_eq!(count_of(&pairs, 1, 0), 8);
    assert_eq!(count_of(&pairs, 0, 0), 8);
    assert_eq!(count_of(&pairs, 1, 1), 8);
}

#[test]
fn random_indices_lie_within_the_grid() {
    let lat = Array2d::<BinAtom, 5, 3>::fill_value(BinAtom::new(0));
    let mut rng = new_rng(Some("indices"));
    let mut seen = [[false; 5]; 3];
    for _ in 0..2000 {
        let (x, y) = lat.random_idx(&mut rng);
        assert!(0 <= x && x < 5 && 0 <= y && y < 3);
        seen[y as usize][x as usize] = true;
    }
    assert!(seen.iter().all(|row| row.iter().all(|hit| *hit)));
    let (first, second) = lat.choose_idxs_uniformly(&mut rng);
    assert_eq!(lat.reduce_index(first), first);
    assert_eq!(lat.reduce_index(second), second);
}

#[test]
fn a_seed_fixes_the_generator() {
    let lat = Array3d::<BinAtom, 7, 5, 3>::fill_value(BinAtom::new(0));
    let mut one = new_rng(Some("same seed"));
    let mut two = new_rng(Some("same seed"));
    let mut other = new_rng(Some("another seed"));
    let mut differs = false;
    for _ in 0..50 {
        let drawn = lat.random_idx(&mut one);
        assert_eq!(drawn, lat.random_idx(&mut two));
        differs = differs || drawn != lat.random_idx(&mut other);
    }
    assert!(differs);
}

#[test]
fn frames_hold_one_byte_per_site() {
    let lat = Array2d::<BinAtom, 4, 4>::fill_with_fn(stripes);
    let frame = lat.get_frame();
    assert_eq!((frame.width, frame.height), (4, 4));
    assert_eq!(frame.pixels, vec![0, 0, 1, 1, 0, 0, 1, 1, 0, 0, 1, 1, 0, 0, 1, 1]);
    let cube = Array3d::<BinAtom, 2, 2, 3>::fill_with_fn(|idx: (isize, isize, isize)| {
        BinAtom::new((idx.2 % 2) as u8)
    });
    let frame = cube.get_frame();
    assert_eq!((frame.width, frame.height), (2, 2));
    assert_eq!(frame.pixels, vec![0, 0, 0, 0]);
    let fast = FastArray::<BinAtom, 2, 1>::fill_value(BinAtom::new(1));
    assert_eq!(fast.get_frame().pixels, vec![1, 1, 1, 1]);
}

#[test]
fn flatten_lists_rows_one_after_another() {
    let rows = [[1u8, 2, 3], [4, 5, 6]];
    assert_eq!(phases::flatten(&rows), vec![1, 2, 3, 4, 5, 6]);
}

#[test]
fn modular_grid_wraps_signed_and_not_unsigned_indices() {
    let mut grid = ModularGrid::<u32>::new(3, 2);
    assert_eq!(grid.grid, vec![0; 6]);
    grid.set((-1, -1), 7);
    assert_eq!(grid.grid, vec![0, 0, 0, 0, 0, 7]);
    assert_eq!(*grid.get((2, 1)), 7);
    assert_eq!(*grid.get((5, 3)), 7);
    assert_eq!(*grid.get_at((2, 1)), 7);
    grid.set_at((0, 1), 9);
    assert_eq!(*grid.get((3, -1)), 9);
    let other = ModularGrid::modularize(2, 3, vec![1, 2, 3, 4, 5, 6]);
    assert_eq!(*other.get((1, 2)), 6);
    assert_eq!(*other.get((-1, -1)), 6);
    assert_eq!(*other.get_at((0, 1)), 3);
}

#[test]
fn modular_array_lists_neighbour_pairs_column_by_column() {
    let mut grid = ModularArray::<BinAtom, 2, 2>::new();
    grid.set((1, 0), BinAtom::new(1));
    assert_eq!(grid.get((-1, 2)), BinAtom::new(1));
    let pairs: Vec<(u8, u8)> =
        grid.all_neighbours().iter().map(|pair| (pair.0 .0, pair.1 .0)).collect();
    assert_eq!(pairs, vec![(0, 1), (0, 0), (0, 0), (0, 0), (1, 0), (1, 0), (0, 0), (0, 1)]);
    assert_eq!(grid.all_neighbours_to((0, 0)), vec![(1, 0), (-1, 0), (0, 1), (0, -1)]);
    assert_eq!(grid.reduce_index((-1, 4)), (1, 0));
    grid.swap_idxs((1, 0), (0, 1));
    assert_eq!(grid.get((1, 0)), BinAtom::new(0));
    assert_eq!(grid.get((0, 1)), BinAtom::new(1));
    let mut rng = new_rng(Some("offsets"));
    for _ in 0..20 {
        let (first, second) = grid.choose_idxs_with_offset(&mut rng, (1, -1));
        assert!(0 <= first.0 && first.0 < 2 && 0 <= first.1 && first.1 < 2);
        assert_eq!(second, (first.0 + 1, first.1 - 1));
    }
    let filled = ModularArray::<BinAtom, 2, 2>::fill_with_fn(|idx: (isize, isize)| {
        BinAtom::new(idx.1 as u8)
    });
    assert_eq!(filled.get((0, 1)), BinAtom::new(1));
    assert_eq!(filled.get((1, 0)), BinAtom::new(0));
    let ones = ModularArray::<BinAtom, 2, 2>::fill_value(BinAtom::new(1));
    assert_eq!(ones.get((5, 5)), BinAtom::new(1));
}

#[test]
fn coordinates_wrap_onto_axes_of_any_length() {
    assert_eq!(wrap_coord(-1, 4), 3);
    assert_eq!(wrap_coord(9, 4), 1);
    assert_eq!(wrap_coord(isize::MIN, 1), 0);
    assert_eq!(wrap_coord(5, usize::MAX), 5);
    assert_eq!(wrap_coord(-1, usize::MAX), usize::MAX - 1);
    assert_eq!(wrap_coord(isize::MIN, usize::MAX), usize::MAX - (1usize << (usize::BITS - 1)));
    assert_eq!(wrap_coord(isize::MIN, (isize::MAX as usize) + 1), 0);
    assert_eq!(wrap_coord(isize::MAX, (isize::MAX as usize) + 1), isize::MAX as usize);
    // a grid of cells without size can be longer than any signed coordinate
    let wide = ModularGrid::modularize(usize::MAX, 1, vec![(); usize::MAX]);
    assert_eq!(*wide.get((-1, 7)), ());
    assert_eq!(*wide.get_at((usize::MAX - 1, 0)), ());
}

#[test]
fn fill_with_fn_asks_for_indices_within_the_grid_only() {
    let on_grid = |idx: (isize, isize)| {
        assert!(0 <= idx.0 && idx.0 < 3 && 0 <= idx.1 && idx.1 < 2);
        BinAtom::new((idx.0 % 2) as u8)
    };
    let lat = Array2d::<BinAtom, 3, 2>::fill_with_fn(on_grid);
    let flat: Vec<u8> = lat.as_flat_slice().iter().map(|a| a.0).collect();
    assert_eq!(flat, vec![0, 1, 0, 0, 1, 0]);
    let cube = Array3d::<BinAtom, 2, 2, 2>::fill_with_fn(|idx: (isize, isize, isize)| {
        assert!(idx.0 < 2 && idx.1 < 2 && idx.2 < 2 && idx.0 >= 0 && idx.1 >= 0 && idx.2 >= 0);
        BinAtom::new(0)
    });
    assert_eq!(cube.tot_sites(), 8);
    let fast = FastArray::<BinAtom, 2, 1>::fill_with_fn(|idx: (usize, usize)| {
        assert!(idx.0 < 2 && idx.1 < 2);
        BinAtom::new(1)
    });
    assert_eq!(fast.tot_sites(), 4);
}
