use phases::cluster::sorted_entries;
use phases::{
    disentangle, Array2d, Array3d, BinAtom, ClusterCounter, ClusterDistribution, ClusterStats,
    Lattice, Mark, Storage, System,
};
use std::collections::BTreeMap;

fn map_of(entries: &[(u32, u32)]) -> BTreeMap<u32, u32> {
    let mut map = BTreeMap::new();
    for (size, count) in entries {
        map.insert(*size, *count);
    }
    map
}

fn five(stats: ClusterStats) -> [u32; 5] {
    [stats.min, stats.quart_1, stats.median, stats.quart_3, stats.max]
}

/// A 6 by 4 grid with species 1 in a block of four, a pair, and a single site.
fn islands(idx: (isize, isize)) -> BinAtom {
    let ones = [(0, 0), (1, 0), (0, 1), (1, 1), (3, 2), (4, 2), (3, 0)];
    if ones.contains(&(idx.0, idx.1)) {
        BinAtom::new(1)
    } else {
        BinAtom::new(0)
    }
}

#[test]
fn marks_are_set_and_cleared_without_touching_the_species() {
    let mut atom = BinAtom::new(1);
    assert!(!atom.is_marked());
    atom.mark();
    assert!(atom.is_marked());
    assert_eq!(atom.0, 0b1000_0001);
    atom.mark();
    assert_eq!(atom.0, 0b1000_0001);
    atom.unmark();
    assert!(!atom.is_marked());
    assert_eq!(atom, BinAtom::new(1));
    let mut empty = <BinAtom as phases::RandAtom>::vacancy();
    assert_eq!(empty.0, 0b0100);
    empty.mark();
    empty.unmark();
    assert_eq!(empty.0, 0b0100);
}

#[test]
fn count_clusters_finds_the_islands() {
    let mut lat = Array2d::<BinAtom, 6, 4>::fill_with_fn(islands);
    let before: Vec<BinAtom> = lat.as_flat_slice().to_vec();
    let found = lat.count_clusters(BinAtom::new(1));
    assert_eq!(found.as_map(), map_of(&[(1, 1), (2, 1), (4, 1)]));
    assert_eq!(lat.as_flat_slice(), &before[..]);
    let sea = lat.count_clusters(BinAtom::new(0));
    assert_eq!(sea.as_map(), map_of(&[(17, 1)]));
    assert_eq!(lat.as_flat_slice(), &before[..]);
}

#[test]
fn clusters_reach_around_the_seam() {
    let mut lat = Array2d::<BinAtom, 4, 4>::fill_with_fn(|idx: (isize, isize)| {
        if idx.0 == 0 || idx.0 == 3 {
            BinAtom::new(1)
        } else {
            BinAtom::new(0)
        }
    });
    let found = lat.count_clusters(BinAtom::new(1));
    assert_eq!(found.as_map(), map_of(&[(8, 1)]));
}

#[test]
fn counting_clusters_is_transparent_however_often_it_is_done() {
    let mut lat = Array3d::<BinAtom, 3, 3, 3>::fill_with_fn(|idx: (isize, isize, isize)| {
        BinAtom::new(((idx.0 * idx.1 + idx.2) % 2) as u8)
    });
    let before: Vec<BinAtom> = lat.as_flat_slice().to_vec();
    for _ in 0..3 {
        for species in 0..2u8 {
            let found = lat.count_clusters(BinAtom::new(species));
            let sites: u32 = found.ref_map().iter().map(|(size, count)| size * count).sum();
            let expected = before.iter().filter(|a| a.0 == species).count();
            assert_eq!(sites as usize, expected);
            assert_eq!(lat.as_flat_slice(), &before[..]);
        }
    }
}

#[test]
fn mark_region_marks_one_cluster_and_returns_its_size() {
    let mut lat = Array2d::<BinAtom, 6, 4>::fill_with_fn(islands);
    assert_eq!(lat.mark_region_and_get_size((1, 1)), 4);
    let marked: Vec<usize> =
        (0..24).filter(|s| lat.as_flat_slice()[*s].is_marked()).collect();
    assert_eq!(marked, vec![0, 1, 6, 7]);
    assert_eq!(lat.mark_region_and_get_size((4, 2)), 2);
    assert_eq!(lat.mark_region_and_get_size((3, 0)), 1);
    assert_eq!(lat.mark_region_and_get_size((5, 3)), 17);
    assert!(lat.as_flat_slice().iter().all(|a| a.is_marked()));
}

#[test]
fn system_counts_clusters_of_every_species() {
    let table: [i32; 4] = [-4, 3, 3, -1];
    let mut sys = System::<Array2d<BinAtom, 6, 4>, [i32; 4]>::with_lattice(
        table,
        Some("clusters"),
        Array2d::fill_with_fn(islands),
    );
    let energy = sys.internal_energy();
    let all = sys.count_all_clusters();
    assert_eq!(all.len(), 2);
    assert_eq!(all[0].ref_map(), &map_of(&[(17, 1)]));
    assert_eq!(all[1].ref_map(), &map_of(&[(1, 1), (2, 1), (4, 1)]));
    let ones = sys.count_clusters(BinAtom::new(1));
    assert_eq!(ones.as_map(), map_of(&[(1, 1), (2, 1), (4, 1)]));
    assert_eq!(sys.internal_energy(), energy);
    sys.place_vacancy((0, 0));
    let ones = sys.count_clusters(BinAtom::new(1));
    assert_eq!(ones.as_map(), map_of(&[(1, 1), (2, 1), (3, 1)]));
    let empty = sys.count_clusters(BinAtom(4));
    assert_eq!(empty.as_map(), map_of(&[(1, 1)]));
    assert_eq!(sys.lattice().get((0, 0)), BinAtom(4));
}

#[test]
fn distribution_keeps_its_map() {
    let empty = ClusterDistribution::new();
    assert!(empty.ref_map().is_empty());
    let map = map_of(&[(3, 2), (1, 5)]);
    let dist = ClusterDistribution::from_map(map.clone());
    assert_eq!(dist.ref_map(), &map);
    assert_eq!(dist.as_map(), map);
    assert_eq!(sorted_entries(&map), vec![(1, 5), (3, 2)]);
}

#[test]
fn combine_adds_multiplicities() {
    let mut dist = ClusterDistribution::from_map(map_of(&[(1, 5), (3, 2)]));
    let other = ClusterDistribution::from_map(map_of(&[(3, 4), (7, 1), (9, 0)]));
    dist.combine(&other);
    assert_eq!(dist.ref_map(), &map_of(&[(1, 5), (3, 6), (7, 1), (9, 0)]));
    dist.combine(&ClusterDistribution::new());
    assert_eq!(dist.as_map(), map_of(&[(1, 5), (3, 6), (7, 1), (9, 0)]));
}

#[test]
fn quartiles_by_clusters() {
    // 8 clusters: the shares are 2, 4 and 6 clusters
    let dist = ClusterDistribution::from_map(map_of(&[(1, 2), (2, 2), (5, 2), (9, 2)]));
    assert_eq!(five(ClusterStats::from_map_block(&dist)), [1, 1, 2, 5, 9]);
    // the smallest size alone exceeds every share: the quartiles stay at zero
    let single = ClusterDistribution::from_map(map_of(&[(5, 10)]));
    let stats = ClusterStats::from_map_block(&single);
    assert_eq!(five(stats), [5, 0, 0, 0, 5]);
    assert!(!stats.valid());
    let uneven = ClusterDistribution::from_map(map_of(&[(2, 1), (3, 1), (4, 5)]));
    assert_eq!(five(ClusterStats::from_map_block(&uneven)), [2, 2, 3, 3, 4]);
}

#[test]
fn quartiles_by_sites() {
    // 2 + 4 + 10 + 18 = 34 sites: the shares are 8, 17 and 25 sites
    let dist = ClusterDistribution::from_map(map_of(&[(1, 2), (2, 2), (5, 2), (9, 2)]));
    let stats = ClusterStats::from_map_atom(&dist);
    assert_eq!(five(stats), [1, 2, 5, 5, 9]);
    assert!(stats.valid());
    // the smallest size alone exceeds every share: the quartiles stay at the smallest size
    let single = ClusterDistribution::from_map(map_of(&[(5, 10)]));
    let stats = ClusterStats::from_map_atom(&single);
    assert_eq!(five(stats), [5, 5, 5, 5, 5]);
    assert!(stats.valid());
    let large = ClusterDistribution::from_map(map_of(&[(4_000_000_000, 4_000_000_000), (7, 1)]));
    assert_eq!(
        five(ClusterStats::from_map_atom(&large)),
        [7, 7, 7, 7, 4_000_000_000]
    );
}

#[test]
fn valid_asks_for_ascending_sizes() {
    let good = ClusterStats { min: 1, quart_1: 1, median: 2, quart_3: 5, max: 5 };
    assert!(good.valid());
    assert!(!ClusterStats { min: 2, ..good }.valid());
    assert!(!ClusterStats { quart_1: 3, ..good }.valid());
    assert!(!ClusterStats { median: 6, ..good }.valid());
    assert!(!ClusterStats { max: 4, ..good }.valid());
}

#[test]
fn categories_carry_the_prefix() {
    assert_eq!(
        ClusterStats::get_categories(None),
        vec!["min", "quart_1", "median", "quart_3", "max"]
    );
    assert_eq!(
        ClusterStats::get_categories(Some("a_")),
        vec!["a_min", "a_quart_1", "a_median", "a_quart_3", "a_max"]
    );
}

#[test]
fn disentangle_gathers_each_size() {
    let first = ClusterStats { min: 1, quart_1: 2, median: 3, quart_3: 4, max: 5 };
    let second = ClusterStats { min: 6, quart_1: 7, median: 8, quart_3: 9, max: 10 };
    let parts = disentangle(vec![first, second]);
    assert_eq!(parts, [vec![1, 6], vec![2, 7], vec![3, 8], vec![4, 9], vec![5, 10]]);
    let none = disentangle(Vec::new());
    assert!(none.iter().all(|part| part.is_empty()));
}
