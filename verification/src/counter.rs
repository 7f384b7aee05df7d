use crate::atoms::{Mark, RandAtom};
use crate::cluster::{
    lemma_empty_weight, lemma_entry_within, lemma_one_more, multiplicity, total_weight,
    ClusterDistribution,
};
use crate::lattice::{Lattice, Storage};
use crate::regions::{
    adjacent, clusters_before, clusters_of_size, connected, is_first, lemma_connected_back,
    lemma_connected_ends, lemma_connected_on, lemma_connected_self, lemma_connected_step,
    lemma_same_region, linked, reached_below, region_size,
};
use crate::sums::{
    lemma_sum_bounds, lemma_sum_eq, lemma_sum_point, lemma_sum_sub, lemma_sum_zero, sum,
};
use std::collections::BTreeMap;
use vstd::prelude::*;

verus! {

/// The number of sites among `cells` that hold exactly `atom`.
pub open spec fn matching<A>(cells: Seq<A>, atom: A) -> int {
    sum(|s: int| if cells[s] == atom { 1int } else { 0int }, cells.len() as int)
}

/// Whether `now` differs from `start` only in that some sites that held `atom` hold it
/// marked.
pub open spec fn marks_only<A: Mark>(start: Seq<A>, now: Seq<A>, atom: A) -> bool {
    &&& now.len() == start.len()
    &&& forall|s: int|
        0 <= s < start.len() ==> (#[trigger] now[s]) == start[s] || (start[s] == atom && now[s]
            == atom.with_mark())
}

/// The number of sites that hold an occupant lies between zero and the number of sites.
pub proof fn lemma_matching_range<A>(cells: Seq<A>, atom: A)
    ensures
        0 <= matching(cells, atom) <= cells.len(),
{
    let hits = |s: int| if cells[s] == atom { 1int } else { 0int };
    lemma_sum_bounds(hits, 0, 1, cells.len() as int);
}

/// Putting `put` on slot `at` changes the number of sites that hold `atom` by the site
/// itself only.
pub proof fn lemma_matching_update<A>(cells: Seq<A>, at: int, put: A, atom: A)
    requires
        0 <= at < cells.len(),
    ensures
        matching(cells.update(at, put), atom) == matching(cells, atom) - (if cells[at] == atom {
            1int
        } else {
            0int
        }) + (if put == atom {
            1int
        } else {
            0int
        }),
{
    let after = cells.update(at, put);
    let n = cells.len() as int;
    let new_hits = |s: int| if after[s] == atom { 1int } else { 0int };
    let old_hits = |s: int| if cells[s] == atom { 1int } else { 0int };
    let diff = |s: int| new_hits(s) - old_hits(s);
    lemma_sum_sub(new_hits, old_hits, n);
    lemma_sum_point(diff, at, n);
}

/// Counting the clusters of a lattice: the maximal sets of sites that hold the same species
/// and hang together through bonds.
pub trait ClusterCounter: Lattice where <Self as Storage>::Atom: Mark {
    /// How many clusters of each size the sites that hold `atom` form. The lattice is the
    /// same after the call as before it.
    fn count_clusters(&mut self, atom: Self::Atom) -> (r: ClusterDistribution)
        requires
            old(self).well_formed(),
            forall|s: int|
                0 <= s < old(self).cells().len() ==> !(#[trigger] old(self).cells()[s]).marked(),
        ensures
            final(self).well_formed(),
            final(self).cells() == old(self).cells(),
            total_weight(r@, true) == matching(old(self).cells(), atom),
            !r@.contains_key(0),
            forall|size: u32|
                multiplicity(r@, size) == #[trigger] clusters_of_size::<Self>(
                    old(self).cells(),
                    atom,
                    size as int,
                ),
            forall|size: u32| #[trigger] r@.contains_key(size) ==> r@[size] > 0,
    ;

    /// Marks the sites that hold the same occupant as the site of `idx` and can be reached
    /// from it through such sites; returns how many there are. The marks have to be
    /// cleared again with `unmark`.
    fn mark_region_and_get_size(&mut self, idx: Self::Index) -> (r: u32)
        requires
            old(self).well_formed(),
            !old(self).cells()[Self::slot(idx)].marked(),
        ensures
            final(self).well_formed(),
            marks_only(
                old(self).cells(),
                final(self).cells(),
                old(self).cells()[Self::slot(idx)],
            ),
            final(self).cells()[Self::slot(idx)] == old(self).cells()[Self::slot(
                idx,
            )].with_mark(),
            r >= 1,
            r == matching(old(self).cells(), old(self).cells()[Self::slot(idx)]) - matching(
                final(self).cells(),
                old(self).cells()[Self::slot(idx)],
            ),
            r == region_size::<Self>(
                old(self).cells(),
                old(self).cells()[Self::slot(idx)],
                Self::slot(idx),
            ),
            forall|s: int|
                0 <= s < old(self).cells().len() ==> ((#[trigger] final(self).cells()[s]) != old(self).cells()[s] <==> connected::<Self>(
                    old(self).cells(),
                    old(self).cells()[Self::slot(idx)],
                    Self::slot(idx),
                    s,
                )),
    ;
}

/// Whether one of the indices on the stack stands for slot `y`.
pub open spec fn on_stack<L: Storage>(stack: Seq<L::Index>, y: int) -> bool {
    exists|j: int| 0 <= j < stack.len() && L::slot(#[trigger] stack[j]) == y
}

/// Where the marked sites include the seed, and no hop leads from a marked site to a site
/// that still holds `atom`, every site that is reached from the seed is marked.
proof fn lemma_fill_complete<L: Storage>(
    start: Seq<L::Atom>,
    now: Seq<L::Atom>,
    atom: L::Atom,
    seed: int,
    path: Seq<int>,
    upto: int,
)
    requires
        now.len() == start.len(),
        forall|s: int| 0 <= s < start.len() && start[s] == atom && #[trigger] now[s] == start[s]
            ==> now[s] == atom,
        now[seed] != start[seed],
        forall|m: int, k: int|
            0 <= m < start.len() && 0 <= k < L::degree() && now[m] != start[m] ==> now[
                #[trigger] L::hop(k, m)
            ] != atom,
        linked::<L>(start, atom, path),
        path[0] == seed,
        0 <= upto < path.len(),
    ensures
        now[path[upto]] != start[path[upto]],
    decreases upto,
{
    if upto > 0 {
        lemma_fill_complete::<L>(start, now, atom, seed, path, upto - 1);
        let m = path[upto - 1];
        assert(adjacent::<L>(path[upto - 1], path[upto]));
        let k = choose|k: int| 0 <= k < L::degree() && path[upto] == #[trigger] L::hop(k, m);
        assert(now[L::hop(k, m)] != atom);
    }
}


impl<T> ClusterCounter for T where T: Lattice, <T as Storage>::Atom: Mark, <T as Storage>::Index: Copy {
    fn count_clusters(&mut self, atom: Self::Atom) -> (r: ClusterDistribution) {
        let ghost start = self.cells();
        let ghost n = Self::sites() as int;
        let idxs = self.all_idxs();
        let mut map: BTreeMap<u32, u32> = BTreeMap::new();
        proof {
            self.lemma_well_formed();
            Self::lemma_shape();
            assert(Self::sites() <= Self::sites() * Self::degree()) by (nonlinear_arith)
                requires
                    Self::degree() >= 1,
            ;
            lemma_empty_weight(u32::MAX as int, true);
            lemma_matching_range(start, atom);
        }
        let mut i: usize = 0;
        while i < idxs.len()
            invariant
                self.well_formed(),
                Self::shape_ok(),
                start.len() == n,
                n == Self::sites(),
                n <= u32::MAX,
                idxs@.len() == n,
                forall|s: int| 0 <= s < n ==> idxs@[s] == Self::index_at(s),
                forall|s: int| 0 <= s < n ==> !(#[trigger] start[s]).marked(),
                0 <= i <= n,
                marks_only(start, self.cells(), atom),
                forall|s: int| 0 <= s < i && start[s] == atom ==> (#[trigger] self.cells()[s])
                    != atom,
                total_weight(map@, true) == matching(start, atom) - matching(self.cells(), atom),
                0 <= matching(start, atom) <= n,
                !map@.contains_key(0),
                forall|s: int|
                    0 <= s < n ==> ((#[trigger] self.cells()[s]) != start[s] <==> reached_below::<
                        Self,
                    >(start, atom, i as int, s)),
                forall|size: u32|
                    multiplicity(map@, size) == #[trigger] clusters_before::<Self>(
                        start,
                        atom,
                        size as int,
                        i as int,
                    ),
                forall|size: u32| #[trigger] map@.contains_key(size) ==> map@[size] > 0,
            decreases n - i,
        {
            let idx = idxs[i];
            proof {
                Self::lemma_index_at(i as int);
            }
            let cell: Self::Atom = self.get(idx);
            let ghost before = self.cells();
            let ghost old_map = map@;
            proof {
                <Self::Atom as RandAtom>::lemma_bytes(cell, atom);
                <Self::Atom as Mark>::lemma_marks(atom);
            }
            if !cell.is_marked() && cell.value() == atom.value() {
                let size: u32 = self.mark_region_and_get_size(idx);
                let ghost after = self.cells();
                let present: u32 = match map.get(&size) {
                    Some(v) => *v,
                    None => 0,
                };
                proof {
                    lemma_matching_range(after, atom);
                    if map@.contains_key(size) {
                        lemma_entry_within(map@, size, u32::MAX as int, true);
                        assert((size as nat) * (present as nat) >= present) by (nonlinear_arith)
                            requires
                                size >= 1,
                        ;
                    }
                    lemma_one_more(map@, size, u32::MAX as int, true);
                    assert((size as nat) * (1 as nat) == size) by (nonlinear_arith);
                }
                map.insert(size, present + 1);
                proof {
                    let here = i as int;
                    // the site is the first of its cluster
                    assert(!reached_below::<Self>(start, atom, here, here));
                    assert forall|b: int| #[trigger]
                        connected::<Self>(start, atom, here, b) implies here <= b by {
                        if b < here {
                            lemma_connected_ends::<Self>(start, atom, here, b);
                            lemma_connected_back::<Self>(start, atom, here, b);
                            assert(connected::<Self>(start, atom, b, here));
                        }
                    }
                    assert(is_first::<Self>(start, atom, here));
                    // the cluster is the same in the lattice as it is now and as it was
                    assert forall|b: int|
                        connected::<Self>(before, atom, here, b) <==> connected::<Self>(
                            start,
                            atom,
                            here,
                            b,
                        ) by {
                        lemma_same_region::<Self>(start, before, atom, here, here, b);
                    }
                    lemma_sum_eq(
                        |b: int| if connected::<Self>(before, atom, here, b) { 1int } else { 0int },
                        |b: int| if connected::<Self>(start, atom, here, b) { 1int } else { 0int },
                        n,
                    );
                    assert(size == region_size::<Self>(start, atom, here));
                    assert forall|s: int| 0 <= s < n implies ((#[trigger] after[s]) != start[s]
                        <==> reached_below::<Self>(start, atom, here + 1, s)) by {
                        if connected::<Self>(start, atom, here, s) {
                            lemma_connected_ends::<Self>(start, atom, here, s);
                        }
                        if reached_below::<Self>(start, atom, here + 1, s) {
                            let from = choose|from: int|
                                0 <= from < here + 1 && #[trigger] connected::<Self>(
                                    start,
                                    atom,
                                    from,
                                    s,
                                );
                            if from < here {
                                assert(reached_below::<Self>(start, atom, here, s));
                            }
                        }
                        if reached_below::<Self>(start, atom, here, s) {
                            let from = choose|from: int|
                                0 <= from < here && #[trigger] connected::<Self>(
                                    start,
                                    atom,
                                    from,
                                    s,
                                );
                            assert(0 <= from < here + 1);
                        }
                    }
                    assert forall|other: u32|
                        multiplicity(map@, other) == #[trigger] clusters_before::<Self>(
                            start,
                            atom,
                            other as int,
                            here + 1,
                        ) by {
                        assert(multiplicity(old_map, other) == clusters_before::<Self>(
                            start,
                            atom,
                            other as int,
                            here,
                        ));
                    }
                }
            } else {
                proof {
                    let here = i as int;
                    assert forall|s: int| 0 <= s < n implies (reached_below::<Self>(
                        start,
                        atom,
                        here + 1,
                        s,
                    ) <==> reached_below::<Self>(start, atom, here, s)) by {
                        if reached_below::<Self>(start, atom, here + 1, s) {
                            let from = choose|from: int|
                                0 <= from < here + 1 && #[trigger] connected::<Self>(
                                    start,
                                    atom,
                                    from,
                                    s,
                                );
                            if from == here {
                                lemma_connected_ends::<Self>(start, atom, here, s);
                                assert(before[here] != start[here]);
                                let under = choose|under: int|
                                    0 <= under < here && #[trigger] connected::<Self>(
                                        start,
                                        atom,
                                        under,
                                        here,
                                    );
                                lemma_connected_on::<Self>(start, atom, under, here, s);
                            }
                        }
                        if reached_below::<Self>(start, atom, here, s) {
                            let from = choose|from: int|
                                0 <= from < here && #[trigger] connected::<Self>(
                                    start,
                                    atom,
                                    from,
                                    s,
                                );
                            assert(0 <= from < here + 1);
                        }
                    }
                    if is_first::<Self>(start, atom, here) {
                        assert(before[here] != start[here]);
                        let under = choose|under: int|
                            0 <= under < here && #[trigger] connected::<Self>(
                                start,
                                atom,
                                under,
                                here,
                            );
                        lemma_connected_back::<Self>(start, atom, under, here);
                        assert(connected::<Self>(start, atom, here, under));
                    }
                    assert forall|other: u32|
                        multiplicity(map@, other) == #[trigger] clusters_before::<Self>(
                            start,
                            atom,
                            other as int,
                            here + 1,
                        ) by {
                        assert(multiplicity(old_map, other) == clusters_before::<Self>(
                            start,
                            atom,
                            other as int,
                            here,
                        ));
                    }
                }
            }
            i = i + 1;
        }
        let ghost mid = self.cells();
        proof {
            let hits = |s: int| if mid[s] == atom { 1int } else { 0int };
            lemma_sum_zero(hits, n);
        }
        let mut j: usize = 0;
        while j < idxs.len()
            invariant
                self.well_formed(),
                Self::shape_ok(),
                start.len() == n,
                n == Self::sites(),
                idxs@.len() == n,
                forall|s: int| 0 <= s < n ==> idxs@[s] == Self::index_at(s),
                forall|s: int| 0 <= s < n ==> !(#[trigger] start[s]).marked(),
                0 <= j <= n,
                marks_only(start, mid, atom),
                self.cells().len() == n,
                forall|s: int| 0 <= s < j ==> (#[trigger] self.cells()[s]) == start[s],
                forall|s: int| j <= s < n ==> (#[trigger] self.cells()[s]) == mid[s],
            decreases n - j,
        {
            let idx = idxs[j];
            proof {
                Self::lemma_index_at(j as int);
            }
            let mut cell: Self::Atom = self.get(idx);
            proof {
                <Self::Atom as Mark>::lemma_marks(start[j as int]);
            }
            cell.unmark();
            self.set(idx, cell);
            j = j + 1;
        }
        proof {
            assert(self.cells() =~= start);
        }
        ClusterDistribution::from_map(map)
    }

    fn mark_region_and_get_size(&mut self, idx: Self::Index) -> (r: u32) {
        let ghost start = self.cells();
        let ghost n = Self::sites() as int;
        let ghost seed = Self::slot(idx);
        proof {
            self.lemma_well_formed();
            Self::lemma_slot(idx);
            Self::lemma_shape();
            assert(Self::sites() <= Self::sites() * Self::degree()) by (nonlinear_arith)
                requires
                    Self::degree() >= 1,
            ;
        }
        let atom_type: Self::Atom = self.get(idx);
        let mut stack: Vec<Self::Index> = Vec::new();
        stack.push(idx);
        let mut count: u32 = 0;
        proof {
            lemma_matching_range(start, atom_type);
            lemma_connected_self::<Self>(start, atom_type, seed);
            assert(Self::slot(stack@[0]) == seed);
        }
        while stack.len() > 0
            invariant
                self.well_formed(),
                Self::shape_ok(),
                start.len() == n,
                n == Self::sites(),
                seed == Self::slot(idx),
                atom_type == start[seed],
                0 <= seed < n,
                !atom_type.marked(),
                marks_only(start, self.cells(), atom_type),
                count == matching(start, atom_type) - matching(self.cells(), atom_type),
                0 <= matching(start, atom_type) <= n <= u32::MAX,
                count == 0 ==> self.cells() == start,
                forall|s: int|
                    0 <= s < n && (#[trigger] self.cells()[s]) != start[s] ==> connected::<Self>(
                        start,
                        atom_type,
                        seed,
                        s,
                    ),
                forall|j: int|
                    0 <= j < stack@.len() && start[Self::slot(#[trigger] stack@[j])] == atom_type
                        ==> connected::<Self>(start, atom_type, seed, Self::slot(stack@[j])),
                forall|m: int, k: int|
                    0 <= m < n && 0 <= k < Self::degree() && self.cells()[m] != start[m]
                        ==> self.cells()[#[trigger] Self::hop(k, m)] != atom_type || on_stack::<
                        Self,
                    >(stack@, Self::hop(k, m)),
                self.cells()[seed] != start[seed] || on_stack::<Self>(stack@, seed),
            decreases matching(self.cells(), atom_type), stack@.len(),
        {
            let ghost full = stack@;
            let ghost cur = self.cells();
            let raw = stack.pop().unwrap();
            let ghost base = stack@;
            let site = self.reduce_index(raw);
            let ghost at = Self::slot(raw);
            proof {
                Self::lemma_slot(raw);
                Self::lemma_index_at(at);
                lemma_matching_range(self.cells(), atom_type);
                assert(full[full.len() - 1] == raw);
                assert(forall|j: int| 0 <= j < base.len() ==> base[j] == full[j]);
            }
            let here: Self::Atom = self.get(site);
            proof {
                <Self::Atom as RandAtom>::lemma_bytes(here, atom_type);
                <Self::Atom as Mark>::lemma_marks(atom_type);
            }
            if here.value() == atom_type.value() {
                let mut marked: Self::Atom = here;
                marked.mark();
                proof {
                    <Self::Atom as Mark>::lemma_marks(here);
                    lemma_matching_update(cur, at, marked, atom_type);
                    assert(start[at] == atom_type);
                    assert(connected::<Self>(start, atom_type, seed, at));
                }
                self.set(site, marked);
                proof {
                    lemma_matching_range(self.cells(), atom_type);
                }
                count = count + 1;
                let neighbors = self.all_neighbors_to(site);
                proof {
                    Self::lemma_shape();
                    Self::lemma_neighbors(site, 0);
                }
                let mut k: usize = 0;
                while k < neighbors.len()
                    invariant
                        0 <= k <= neighbors@.len(),
                        stack@ == base + neighbors@.take(k as int),
                    decreases neighbors@.len() - k,
                {
                    stack.push(neighbors[k]);
                    k = k + 1;
                    proof {
                        assert(stack@ =~= base + neighbors@.take(k as int));
                    }
                }
                proof {
                    let now = self.cells();
                    assert(neighbors@.take(neighbors@.len() as int) =~= neighbors@);
                    assert forall|i: int| 0 <= i < Self::degree() implies Self::slot(
                        #[trigger] stack@[base.len() + i],
                    ) == Self::hop(i, at) && 0 <= Self::hop(i, at) < n by {
                        Self::lemma_neighbors(site, i);
                        Self::lemma_hop(i, at);
                    }
                    assert forall|j: int|
                        0 <= j < stack@.len() && start[Self::slot(#[trigger] stack@[j])]
                            == atom_type implies connected::<Self>(
                        start,
                        atom_type,
                        seed,
                        Self::slot(stack@[j]),
                    ) by {
                        if j < base.len() {
                            assert(stack@[j] == full[j]);
                        } else {
                            let i = j - base.len();
                            assert(Self::slot(stack@[base.len() + i]) == Self::hop(i, at));
                            lemma_connected_step::<Self>(start, atom_type, seed, at, i);
                        }
                    }
                    assert forall|m: int, k: int|
                        0 <= m < n && 0 <= k < Self::degree() && now[m] != start[m] implies now[
                        #[trigger] Self::hop(k, m)
                    ] != atom_type || on_stack::<Self>(stack@, Self::hop(k, m)) by {
                        let y = Self::hop(k, m);
                        Self::lemma_hop(k, m);
                        if m == at {
                            assert(Self::slot(stack@[base.len() + k]) == y);
                        } else if y != at && cur[y] == atom_type {
                            assert(on_stack::<Self>(full, y));
                            let j = choose|j: int|
                                0 <= j < full.len() && Self::slot(#[trigger] full[j]) == y;
                            assert(stack@[j] == full[j]);
                        }
                    }
                    if now[seed] == start[seed] {
                        assert(on_stack::<Self>(full, seed));
                        let j = choose|j: int|
                            0 <= j < full.len() && Self::slot(#[trigger] full[j]) == seed;
                        assert(stack@[j] == full[j]);
                    }
                }
            } else {
                proof {
                    assert forall|m: int, k: int|
                        0 <= m < n && 0 <= k < Self::degree() && cur[m] != start[m] implies cur[
                        #[trigger] Self::hop(k, m)
                    ] != atom_type || on_stack::<Self>(base, Self::hop(k, m)) by {
                        let y = Self::hop(k, m);
                        if cur[y] == atom_type {
                            assert(on_stack::<Self>(full, y));
                            let j = choose|j: int|
                                0 <= j < full.len() && Self::slot(#[trigger] full[j]) == y;
                            assert(base[j] == full[j]);
                        }
                    }
                    if cur[seed] == start[seed] {
                        assert(on_stack::<Self>(full, seed));
                        let j = choose|j: int|
                            0 <= j < full.len() && Self::slot(#[trigger] full[j]) == seed;
                        assert(base[j] == full[j]);
                    }
                }
            }
        }
        proof {
            let now = self.cells();
            assert(now[seed] != start[seed]);
            assert forall|s: int| 0 <= s < n implies ((#[trigger] now[s]) != start[s]
                <==> connected::<Self>(start, atom_type, seed, s)) by {
                if connected::<Self>(start, atom_type, seed, s) {
                    let path = choose|path: Seq<int>| #[trigger]
                        linked::<Self>(start, atom_type, path) && path[0] == seed && path[path.len()
                            - 1] == s;
                    lemma_fill_complete::<Self>(
                        start,
                        now,
                        atom_type,
                        seed,
                        path,
                        path.len() - 1,
                    );
                }
            }
            let was = |s: int| if start[s] == atom_type { 1int } else { 0int };
            let is = |s: int| if now[s] == atom_type { 1int } else { 0int };
            let reached = |b: int|
                if connected::<Self>(start, atom_type, seed, b) {
                    1int
                } else {
                    0int
                };
            lemma_sum_sub(was, is, n);
            assert forall|s: int| 0 <= s < n implies was(s) - is(s) == #[trigger] reached(s) by {
                if connected::<Self>(start, atom_type, seed, s) {
                    lemma_connected_ends::<Self>(start, atom_type, seed, s);
                }
            }
            lemma_sum_eq(|s: int| was(s) - is(s), reached, n);
        }
        count
    }
}

} // verus!
