use crate::lattice::Storage;
use crate::sums::sum;
use vstd::prelude::*;

verus! {

/// Whether one hop leads from slot `a` to slot `b`.
pub open spec fn adjacent<L: Storage>(a: int, b: int) -> bool {
    exists|k: int| 0 <= k < L::degree() && b == #[trigger] L::hop(k, a)
}

/// Whether `path` is a walk over sites that all hold `atom`, each one hop from the one
/// before.
pub open spec fn linked<L: Storage>(cells: Seq<L::Atom>, atom: L::Atom, path: Seq<int>) -> bool {
    &&& path.len() > 0
    &&& forall|i: int|
        0 <= i < path.len() ==> 0 <= #[trigger] path[i] < cells.len() && cells[path[i]] == atom
    &&& forall|i: int| 0 <= i < path.len() - 1 ==> adjacent::<L>(#[trigger] path[i], path[i + 1])
}

/// Whether slot `b` can be reached from slot `a` over sites that all hold `atom`.
pub open spec fn connected<L: Storage>(
    cells: Seq<L::Atom>,
    atom: L::Atom,
    a: int,
    b: int,
) -> bool {
    exists|path: Seq<int>| #[trigger]
        linked::<L>(cells, atom, path) && path[0] == a && path[path.len() - 1] == b
}

/// The number of sites in the cluster of slot `s`: those that can be reached from it over
/// sites that hold `atom`.
pub open spec fn region_size<L: Storage>(cells: Seq<L::Atom>, atom: L::Atom, s: int) -> int {
    sum(|b: int| if connected::<L>(cells, atom, s, b) { 1int } else { 0int }, cells.len() as int)
}

/// Whether slot `s` holds `atom` and is the first slot of its cluster.
pub open spec fn is_first<L: Storage>(cells: Seq<L::Atom>, atom: L::Atom, s: int) -> bool {
    &&& 0 <= s < cells.len()
    &&& cells[s] == atom
    &&& forall|b: int| #[trigger] connected::<L>(cells, atom, s, b) ==> s <= b
}

/// The number of clusters of sites that hold `atom` which have exactly `size` sites.
pub open spec fn clusters_of_size<L: Storage>(
    cells: Seq<L::Atom>,
    atom: L::Atom,
    size: int,
) -> int {
    clusters_before::<L>(cells, atom, size, cells.len() as int)
}

/// The number of clusters of exactly `size` sites whose first slot lies below `upto`.
pub open spec fn clusters_before<L: Storage>(
    cells: Seq<L::Atom>,
    atom: L::Atom,
    size: int,
    upto: int,
) -> int {
    sum(
        |s: int|
            if is_first::<L>(cells, atom, s) && region_size::<L>(cells, atom, s) == size {
                1int
            } else {
                0int
            },
        upto,
    )
}

/// A site that holds `atom` is reached from itself.
pub proof fn lemma_connected_self<L: Storage>(cells: Seq<L::Atom>, atom: L::Atom, a: int)
    requires
        0 <= a < cells.len(),
        cells[a] == atom,
    ensures
        connected::<L>(cells, atom, a, a),
{
    let path = seq![a];
    assert(linked::<L>(cells, atom, path));
    assert(path[0] == a && path[path.len() - 1] == a);
}

/// Between sites that are reached from one another, both hold `atom`.
pub proof fn lemma_connected_ends<L: Storage>(
    cells: Seq<L::Atom>,
    atom: L::Atom,
    a: int,
    b: int,
)
    requires
        connected::<L>(cells, atom, a, b),
    ensures
        0 <= a < cells.len(),
        0 <= b < cells.len(),
        cells[a] == atom,
        cells[b] == atom,
{
    let path = choose|path: Seq<int>| #[trigger]
        linked::<L>(cells, atom, path) && path[0] == a && path[path.len() - 1] == b;
    assert(cells[path[0]] == atom);
    assert(cells[path[path.len() - 1]] == atom);
}

/// What is reached from `a` reaches on by one hop to a site that holds `atom`.
pub proof fn lemma_connected_step<L: Storage>(
    cells: Seq<L::Atom>,
    atom: L::Atom,
    a: int,
    b: int,
    k: int,
)
    requires
        connected::<L>(cells, atom, a, b),
        0 <= k < L::degree(),
        0 <= L::hop(k, b) < cells.len(),
        cells[L::hop(k, b)] == atom,
    ensures
        connected::<L>(cells, atom, a, L::hop(k, b)),
{
    let path = choose|path: Seq<int>| #[trigger]
        linked::<L>(cells, atom, path) && path[0] == a && path[path.len() - 1] == b;
    let longer = path.push(L::hop(k, b));
    assert forall|i: int| 0 <= i < longer.len() - 1 implies adjacent::<L>(
        #[trigger] longer[i],
        longer[i + 1],
    ) by {
        if i < path.len() - 1 {
            assert(adjacent::<L>(path[i], path[i + 1]));
        }
    }
    assert(linked::<L>(cells, atom, longer));
    assert(longer[0] == a && longer[longer.len() - 1] == L::hop(k, b));
}

/// Hops can be retraced.
pub proof fn lemma_adjacent_back<L: Storage>(n: int, a: int, b: int)
    requires
        L::shape_ok(),
        n == L::sites(),
        0 <= a < n,
        adjacent::<L>(a, b),
    ensures
        adjacent::<L>(b, a),
        0 <= b < n,
{
    let k = choose|k: int| 0 <= k < L::degree() && b == #[trigger] L::hop(k, a);
    L::lemma_hop(k, a);
    assert(a == L::hop(L::reverse(k), b));
}

/// What is reached from a site reaches back to it.
pub proof fn lemma_connected_back<L: Storage>(cells: Seq<L::Atom>, atom: L::Atom, a: int, b: int)
    requires
        L::shape_ok(),
        cells.len() == L::sites(),
        connected::<L>(cells, atom, a, b),
    ensures
        connected::<L>(cells, atom, b, a),
{
    let path = choose|path: Seq<int>| #[trigger]
        linked::<L>(cells, atom, path) && path[0] == a && path[path.len() - 1] == b;
    let back = path.reverse();
    assert forall|i: int| 0 <= i < back.len() - 1 implies adjacent::<L>(
        #[trigger] back[i],
        back[i + 1],
    ) by {
        let j = path.len() - 2 - i;
        assert(adjacent::<L>(path[j], path[j + 1]));
        lemma_adjacent_back::<L>(cells.len() as int, path[j], path[j + 1]);
    }
    assert(linked::<L>(cells, atom, back));
    assert(back[0] == b && back[back.len() - 1] == a);
}

/// What is reached from something that is reached, is reached.
pub proof fn lemma_connected_on<L: Storage>(
    cells: Seq<L::Atom>,
    atom: L::Atom,
    a: int,
    b: int,
    c: int,
)
    requires
        connected::<L>(cells, atom, a, b),
        connected::<L>(cells, atom, b, c),
    ensures
        connected::<L>(cells, atom, a, c),
{
    let first = choose|path: Seq<int>| #[trigger]
        linked::<L>(cells, atom, path) && path[0] == a && path[path.len() - 1] == b;
    let second = choose|path: Seq<int>| #[trigger]
        linked::<L>(cells, atom, path) && path[0] == b && path[path.len() - 1] == c;
    let whole = first + second.drop_first();
    assert forall|i: int| 0 <= i < whole.len() implies 0 <= #[trigger] whole[i] < cells.len()
        && cells[whole[i]] == atom by {
        if i >= first.len() {
            assert(whole[i] == second[i - first.len() + 1]);
        }
    }
    assert forall|i: int| 0 <= i < whole.len() - 1 implies adjacent::<L>(
        #[trigger] whole[i],
        whole[i + 1],
    ) by {
        if i < first.len() - 1 {
            assert(adjacent::<L>(first[i], first[i + 1]));
        } else {
            let j = i - first.len() + 1;
            assert(adjacent::<L>(second[j], second[j + 1]));
            if i == first.len() - 1 {
                assert(whole[i] == second[0]);
            } else {
                assert(whole[i] == second[j]);
            }
            assert(whole[i + 1] == second[j + 1]);
        }
    }
    assert(linked::<L>(cells, atom, whole));
    assert(whole[0] == a);
    if second.len() == 1 {
        assert(whole[whole.len() - 1] == c);
    } else {
        assert(whole[whole.len() - 1] == second[second.len() - 1]);
    }
}

/// Every site of a walk is reached from its first site.
pub proof fn lemma_connected_along<L: Storage>(
    cells: Seq<L::Atom>,
    atom: L::Atom,
    path: Seq<int>,
    j: int,
)
    requires
        linked::<L>(cells, atom, path),
        0 <= j < path.len(),
    ensures
        connected::<L>(cells, atom, path[0], path[j]),
{
    let part = path.take(j + 1);
    assert forall|i: int| 0 <= i < part.len() - 1 implies adjacent::<L>(
        #[trigger] part[i],
        part[i + 1],
    ) by {
        assert(adjacent::<L>(path[i], path[i + 1]));
    }
    assert(linked::<L>(cells, atom, part));
    assert(part[0] == path[0] && part[part.len() - 1] == path[j]);
}

/// Whether slot `s` is reached from a slot below `upto`.
pub open spec fn reached_below<L: Storage>(
    cells: Seq<L::Atom>,
    atom: L::Atom,
    upto: int,
    s: int,
) -> bool {
    exists|from: int| 0 <= from < upto && #[trigger] connected::<L>(cells, atom, from, s)
}

/// Where `now` differs from `start` only in sites that held `atom`, do so no more, and are
/// reached from a slot below `upto`, a seed that is not reached from below `upto` reaches
/// the same sites in both.
pub proof fn lemma_same_region<L: Storage>(
    start: Seq<L::Atom>,
    now: Seq<L::Atom>,
    atom: L::Atom,
    upto: int,
    seed: int,
    b: int,
)
    requires
        L::shape_ok(),
        start.len() == L::sites(),
        now.len() == start.len(),
        forall|s: int|
            0 <= s < start.len() ==> (#[trigger] now[s]) == start[s] || (start[s] == atom
                && now[s] != atom),
        forall|s: int|
            0 <= s < start.len() && (#[trigger] now[s]) != start[s] ==> reached_below::<L>(
                start,
                atom,
                upto,
                s,
            ),
        !reached_below::<L>(start, atom, upto, seed),
    ensures
        connected::<L>(now, atom, seed, b) <==> connected::<L>(start, atom, seed, b),
{
    if connected::<L>(now, atom, seed, b) {
        let path = choose|path: Seq<int>| #[trigger]
            linked::<L>(now, atom, path) && path[0] == seed && path[path.len() - 1] == b;
        assert(linked::<L>(start, atom, path));
    }
    if connected::<L>(start, atom, seed, b) {
        let path = choose|path: Seq<int>| #[trigger]
            linked::<L>(start, atom, path) && path[0] == seed && path[path.len() - 1] == b;
        assert forall|i: int| 0 <= i < path.len() implies now[#[trigger] path[i]] == atom by {
            let s = path[i];
            if now[s] != start[s] {
                let from = choose|from: int|
                    0 <= from < upto && #[trigger] connected::<L>(start, atom, from, s);
                lemma_connected_along::<L>(start, atom, path, i);
                lemma_connected_back::<L>(start, atom, seed, s);
                lemma_connected_on::<L>(start, atom, from, s, seed);
            }
        }
        assert(linked::<L>(now, atom, path));
    }
}

} // verus!
