use crate::atoms::{BinAtom, RandAtom};
use crate::lattice::{swapped, Storage};
use crate::pairs::{tidy, weighted};
use crate::sums::{
    lemma_sum_add, lemma_sum_eq, lemma_sum_exchange, lemma_sum_point, lemma_sum_sub,
    lemma_sum_zero, sum,
};
use vstd::prelude::*;

verus! {

/// The energy of the bond that hop `k` makes from site `s`, under the pair energies `e`.
pub open spec fn bond_term<L: Storage>(
    e: spec_fn(L::Atom, L::Atom) -> int,
    c: Seq<L::Atom>,
    k: int,
    s: int,
) -> int {
    e(c[s], c[L::hop(k, s)])
}

/// The energy of the bonds between site `s` and all its neighbours.
pub open spec fn around<L: Storage>(
    e: spec_fn(L::Atom, L::Atom) -> int,
    c: Seq<L::Atom>,
    s: int,
) -> int {
    sum(|k: int| bond_term::<L>(e, c, k, s), L::degree() as int)
}

/// The energy of the bonds that hop `k` makes from every site.
pub open spec fn along<L: Storage>(
    e: spec_fn(L::Atom, L::Atom) -> int,
    c: Seq<L::Atom>,
    k: int,
) -> int {
    sum(|s: int| bond_term::<L>(e, c, k, s), L::sites() as int)
}

/// The energy of the whole lattice: every bond counted once, along the forward hops.
pub open spec fn total<L: Storage>(e: spec_fn(L::Atom, L::Atom) -> int, c: Seq<L::Atom>) -> int {
    sum(
        |k: int|
            if L::forward(k) {
                along::<L>(e, c, k)
            } else {
                0
            },
        L::degree() as int,
    )
}

/// The energy of the bonds that the forward hops make from site `s`.
pub open spec fn forward_around<L: Storage>(
    e: spec_fn(L::Atom, L::Atom) -> int,
    c: Seq<L::Atom>,
    s: int,
) -> int {
    sum(
        |k: int|
            if L::forward(k) {
                bond_term::<L>(e, c, k, s)
            } else {
                0
            },
        L::degree() as int,
    )
}

/// The energy of the lattice is the sum, over its sites, of the energy of the bonds that the
/// forward hops make from each.
pub proof fn lemma_total_by_site<L: Storage>(e: spec_fn(L::Atom, L::Atom) -> int, c: Seq<L::Atom>)
    ensures
        total::<L>(e, c) == sum(|s: int| forward_around::<L>(e, c, s), L::sites() as int),
{
    let n = L::sites() as int;
    let deg = L::degree() as int;
    let a = |k: int, s: int| if L::forward(k) { bond_term::<L>(e, c, k, s) } else { 0 };
    let by_hop = |k: int| if L::forward(k) { along::<L>(e, c, k) } else { 0 };
    let rows = |k: int| sum(|s: int| a(k, s), n);
    let cols = |s: int| sum(|k: int| a(k, s), deg);
    assert forall|k: int| 0 <= k < deg implies #[trigger] by_hop(k) == rows(k) by {
        if L::forward(k) {
            lemma_sum_eq(|s: int| bond_term::<L>(e, c, k, s), |s: int| a(k, s), n);
        } else {
            lemma_sum_zero(|s: int| a(k, s), n);
        }
    }
    lemma_sum_eq(by_hop, rows, deg);
    lemma_sum_exchange(a, deg, n);
    assert forall|s: int| 0 <= s < n implies #[trigger] cols(s) == forward_around::<L>(e, c, s) by {
        lemma_sum_eq(
            |k: int| a(k, s),
            |k: int| if L::forward(k) { bond_term::<L>(e, c, k, s) } else { 0 },
            deg,
        );
    }
    lemma_sum_eq(cols, |s: int| forward_around::<L>(e, c, s), n);
}

/// Whether `list` counts the bonds of a lattice with the occupants `c` by the pair of
/// occupants at their ends: no pair twice, none that no bond holds, and so that for any
/// pair energies the counted pairs add up to the energy of the lattice.
pub open spec fn counts_bonds<L: Storage>(
    list: Seq<((L::Atom, L::Atom), u32)>,
    c: Seq<L::Atom>,
) -> bool {
    &&& tidy(list)
    &&& forall|e: spec_fn(L::Atom, L::Atom) -> int| #[trigger]
        weighted(list, e) == total::<L>(e, c)
}

/// One for the pair of `a` and `b`, in this order, and zero for every other pair.
pub open spec fn only_pair<A>(a: A, b: A) -> spec_fn(A, A) -> int {
    |x: A, y: A| if x == a && y == b { 1int } else { 0int }
}

/// The number of bonds of a lattice with the occupants `c` that lead from an occupant `a`,
/// by a forward hop, to an occupant `b`.
pub open spec fn bond_count<L: Storage>(c: Seq<L::Atom>, a: L::Atom, b: L::Atom) -> int {
    total::<L>(only_pair(a, b), c)
}

/// A list that counts the bonds of a lattice gives, for each pair it lists, the number of
/// bonds that hold it, and lists every pair that a bond holds.
pub proof fn lemma_counts_are_bond_counts<L: Storage>(
    list: Seq<((L::Atom, L::Atom), u32)>,
    c: Seq<L::Atom>,
    a: L::Atom,
    b: L::Atom,
)
    requires
        counts_bonds::<L>(list, c),
    ensures
        forall|i: int|
            0 <= i < list.len() && (#[trigger] list[i]).0 == (a, b) ==> list[i].1 == bond_count::<
                L,
            >(c, a, b),
        (forall|i: int| 0 <= i < list.len() ==> (#[trigger] list[i]).0 != (a, b))
            ==> bond_count::<L>(c, a, b) == 0,
{
    let e = only_pair::<L::Atom>(a, b);
    let terms = |i: int| e(list[i].0.0, list[i].0.1) * list[i].1;
    assert(weighted(list, e) == total::<L>(e, c));
    assert forall|i: int| 0 <= i < list.len() && (#[trigger] list[i]).0 == (a, b) implies list[i].1
        == bond_count::<L>(c, a, b) by {
        assert forall|j: int| 0 <= j < list.len() && j != i implies #[trigger] terms(j) == 0 by {
            assert(list[j].0 != list[i].0);
        }
        lemma_sum_point(terms, i, list.len() as int);
    }
    if forall|i: int| 0 <= i < list.len() ==> (#[trigger] list[i]).0 != (a, b) {
        assert forall|j: int| 0 <= j < list.len() implies #[trigger] terms(j) == 0 by {
            assert(list[j].0 != (a, b));
        }
        lemma_sum_zero(terms, list.len() as int);
    }
}

/// Whether a pair of occupants has the same energy in either order.
pub open spec fn symmetric<A>(e: spec_fn(A, A) -> int) -> bool {
    forall|a: A, b: A| #[trigger] e(a, b) == e(b, a)
}

/// What exchanging the occupants of `p` and `q` adds to the bonds that hop `k` and its
/// reverse make from those two sites.
pub open spec fn swap_gain<L: Storage>(
    e: spec_fn(L::Atom, L::Atom) -> int,
    c: Seq<L::Atom>,
    p: int,
    q: int,
    k: int,
) -> int {
    let d = swapped(c, p, q);
    bond_term::<L>(e, d, k, p) + bond_term::<L>(e, d, k, q) - bond_term::<L>(e, c, k, p)
        - bond_term::<L>(e, c, k, q)
}

/// Exchanging two occupants changes the energy along a hop by what it changes in the bonds
/// that the hop and its reverse make from the two sites.
proof fn lemma_swap_along<L: Storage>(
    e: spec_fn(L::Atom, L::Atom) -> int,
    c: Seq<L::Atom>,
    p: int,
    q: int,
    k: int,
)
    requires
        L::shape_ok(),
        c.len() == L::sites(),
        0 <= p < L::sites(),
        0 <= q < L::sites(),
        p != q,
        symmetric(e),
        0 <= k < L::degree(),
    ensures
        along::<L>(e, swapped(c, p, q), k) - along::<L>(e, c, k) == swap_gain::<L>(e, c, p, q, k)
            + swap_gain::<L>(e, c, p, q, L::reverse(k)),
{
    let n = L::sites() as int;
    let d = swapped(c, p, q);
    let r = L::reverse(k);
    let after = |s: int| bond_term::<L>(e, d, k, s);
    let before = |s: int| bond_term::<L>(e, c, k, s);
    let delta = |s: int| after(s) - before(s);
    lemma_sum_sub(after, before, n);
    L::lemma_hop(k, p);
    L::lemma_hop(k, q);
    L::lemma_hop(r, p);
    L::lemma_hop(r, q);
    let bp = L::hop(r, p);
    let bq = L::hop(r, q);
    assert forall|s: int| 0 <= s < n implies 0 <= L::hop(k, s) < n && L::hop(r, L::hop(k, s))
        == s by {
        L::lemma_hop(k, s);
    }
    if L::hop(k, p) == p {
        assert forall|s: int| 0 <= s < n implies L::hop(k, s) == s by {
            L::lemma_loop(k, p, s);
        }
        let at_p = |s: int| if s == p { delta(s) } else { 0 };
        let at_q = |s: int| if s == q { delta(s) } else { 0 };
        lemma_sum_eq(delta, |s: int| at_p(s) + at_q(s), n);
        lemma_sum_add(at_p, at_q, n);
        lemma_sum_point(at_p, p, n);
        lemma_sum_point(at_q, q, n);
    } else {
        assert forall|s: int| 0 <= s < n implies L::hop(k, s) != s by {
            if L::hop(k, s) == s {
                L::lemma_loop(k, s, p);
            }
        }
        let at_p = |s: int| if s == p { delta(s) } else { 0 };
        let at_q = |s: int| if s == q { delta(s) } else { 0 };
        let at_bp = |s: int| if s == bp { delta(s) } else { 0 };
        let at_bq = |s: int| if s == bq { delta(s) } else { 0 };
        let from = |s: int| at_p(s) + at_q(s);
        let into = |s: int| at_bp(s) + at_bq(s);
        assert forall|s: int| 0 <= s < n implies #[trigger] delta(s) == from(s) + into(s) by {
            let t = L::hop(k, s);
            assert(L::hop(r, t) == s);
            assert(e(c[q], c[p]) == e(c[p], c[q]));
        }
        lemma_sum_eq(delta, |s: int| from(s) + into(s), n);
        lemma_sum_add(from, into, n);
        lemma_sum_add(at_p, at_q, n);
        lemma_sum_add(at_bp, at_bq, n);
        lemma_sum_point(at_p, p, n);
        lemma_sum_point(at_q, q, n);
        lemma_sum_point(at_bp, bp, n);
        lemma_sum_point(at_bq, bq, n);
        assert(sum(delta, n) == delta(p) + delta(q) + delta(bp) + delta(bq));
        assert(L::hop(k, bp) == p);
        assert(L::hop(k, bq) == q);
        assert(e(d[bp], d[p]) == e(d[p], d[bp]));
        assert(e(c[bp], c[p]) == e(c[p], c[bp]));
        assert(e(d[bq], d[q]) == e(d[q], d[bq]));
        assert(e(c[bq], c[q]) == e(c[q], c[bq]));
    }
}

/// Exchanging the occupants of two sites changes the energy of the lattice by exactly what
/// it changes in the energy around the two sites. Where the two sites are neighbours, their
/// common bond is counted around both, before and after, and drops out.
pub proof fn lemma_swap_energy<L: Storage>(
    e: spec_fn(L::Atom, L::Atom) -> int,
    c: Seq<L::Atom>,
    p: int,
    q: int,
)
    requires
        L::shape_ok(),
        c.len() == L::sites(),
        0 <= p < L::sites(),
        0 <= q < L::sites(),
        p != q,
        symmetric(e),
    ensures
        total::<L>(e, swapped(c, p, q)) - total::<L>(e, c) == around::<L>(e, swapped(c, p, q), p)
            + around::<L>(e, swapped(c, p, q), q) - around::<L>(e, c, p) - around::<L>(e, c, q),
{
    let deg = L::degree() as int;
    let d = swapped(c, p, q);
    let gain = |k: int| swap_gain::<L>(e, c, p, q, k);
    let after = |k: int| if L::forward(k) { along::<L>(e, d, k) } else { 0 };
    let before = |k: int| if L::forward(k) { along::<L>(e, c, k) } else { 0 };
    let paired = |k: int| if L::forward(k) { gain(k) + gain(L::reverse(k)) } else { 0 };
    lemma_sum_sub(after, before, deg);
    assert forall|k: int| 0 <= k < deg implies after(k) - before(k) == #[trigger] paired(k) by {
        if L::forward(k) {
            lemma_swap_along::<L>(e, c, p, q, k);
        }
    }
    lemma_sum_eq(|k: int| after(k) - before(k), paired, deg);
    L::lemma_pairs(gain);
    let new_p = |k: int| bond_term::<L>(e, d, k, p);
    let new_q = |k: int| bond_term::<L>(e, d, k, q);
    let old_p = |k: int| bond_term::<L>(e, c, k, p);
    let old_q = |k: int| bond_term::<L>(e, c, k, q);
    let new_both = |k: int| new_p(k) + new_q(k);
    let old_both = |k: int| old_p(k) + old_q(k);
    lemma_sum_add(new_p, new_q, deg);
    lemma_sum_add(old_p, old_q, deg);
    lemma_sum_sub(new_both, old_both, deg);
    lemma_sum_eq(gain, |k: int| new_both(k) - old_both(k), deg);
}

/// Around a site whose occupant has no energy with any other, there is no energy.
pub proof fn lemma_inert_site<L: Storage>(
    e: spec_fn(L::Atom, L::Atom) -> int,
    c: Seq<L::Atom>,
    s: int,
)
    requires
        forall|b: L::Atom| #[trigger] e(c[s], b) == 0,
    ensures
        around::<L>(e, c, s) == 0,
{
    lemma_sum_zero(|k: int| bond_term::<L>(e, c, k, s), L::degree() as int);
}

/// The energy of every pair of neighbouring occupants.
pub trait Energies<A: RandAtom> {
    /// The energy of a bond between `a` and `b`.
    spec fn energy(&self, a: A, b: A) -> int;

    /// Whether these energies are usable: the same for a pair in either order.
    spec fn well_formed(&self) -> bool;

    /// A pair has the same energy in either order, a vacancy has none with anything, and
    /// every energy is a 32-bit number.
    proof fn lemma_energy(&self, a: A, b: A)
        requires
            self.well_formed(),
        ensures
            self.energy(a, b) == self.energy(b, a),
            a.is_vacancy() || b.is_vacancy() ==> self.energy(a, b) == 0,
            i32::MIN <= self.energy(a, b) <= i32::MAX,
    ;

    /// The energy of a bond between `a_1` and `a_2`.
    fn get_interaction_energy(&self, a_1: A, a_2: A) -> (e: i32)
        requires
            self.well_formed(),
        ensures
            e == self.energy(a_1, a_2),
    ;
}

/// The position in a table of four energies of the pair of species that `a` and `b` hold.
pub open spec fn pair_slot(a: BinAtom, b: BinAtom) -> int {
    2 * (a.0 % 2) + (b.0 % 2)
}

/// Four energies, for the pairs (0, 0), (0, 1), (1, 0) and (1, 1) of two species.
impl Energies<BinAtom> for [i32; 4] {
    open spec fn energy(&self, a: BinAtom, b: BinAtom) -> int {
        if a.is_vacancy() || b.is_vacancy() {
            0
        } else {
            self@[pair_slot(a, b)] as int
        }
    }

    open spec fn well_formed(&self) -> bool {
        self@[1] == self@[2]
    }

    proof fn lemma_energy(&self, a: BinAtom, b: BinAtom) {
    }

    fn get_interaction_energy(&self, a_1: BinAtom, a_2: BinAtom) -> (e: i32) {
        if a_1.0 == 0b0100 || a_2.0 == 0b0100 {
            0
        } else {
            let x: u8 = a_1.0;
            let y: u8 = a_2.0;
            let first: u8 = x & 1;
            let second: u8 = y & 1;
            assert(first == x % 2 && second == y % 2) by (bit_vector)
                requires
                    first == x & 1,
                    second == y & 1,
            ;
            let at: usize = (2 * first + second) as usize;
            self[at]
        }
    }
}

} // verus!
