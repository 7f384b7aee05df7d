use crate::atoms::RandAtom;
use crate::sums::{lemma_sum_eq, lemma_sum_grows, lemma_sum_point, lemma_sum_sub, sum};
use vstd::prelude::*;

verus! {

/// The pairs of occupants found at the ends of bonds, each with the number of bonds that
/// hold it.
pub type PairCounts<A> = Vec<((A, A), u32)>;

/// The sum, over the listed pairs, of what `e` gives for the pair, once for each bond counted.
pub open spec fn weighted<A>(list: Seq<((A, A), u32)>, e: spec_fn(A, A) -> int) -> int {
    sum(|i: int| e(list[i].0.0, list[i].0.1) * list[i].1, list.len() as int)
}

/// The number of bonds that the list counts in all.
pub open spec fn counted<A>(list: Seq<((A, A), u32)>) -> int {
    weighted(list, |a: A, b: A| 1int)
}

/// Whether no pair is listed twice and every listed pair is counted at least once.
pub open spec fn tidy<A>(list: Seq<((A, A), u32)>) -> bool {
    &&& forall|i: int, j: int| 0 <= i < j < list.len() ==> list[i].0 != list[j].0
    &&& forall|i: int| 0 <= i < list.len() ==> (#[trigger] list[i]).1 > 0
}

/// No single count exceeds the number of bonds counted in all.
pub proof fn lemma_count_within<A>(list: Seq<((A, A), u32)>, i: int)
    requires
        0 <= i < list.len(),
    ensures
        list[i].1 <= counted(list),
{
    let one = |a: A, b: A| 1int;
    let f = |j: int| one(list[j].0.0, list[j].0.1) * list[j].1;
    assert forall|j: int| 0 <= j < list.len() implies 0 <= #[trigger] f(j) by {}
    lemma_sum_grows(f, i + 1, list.len() as int);
    lemma_sum_grows(f, i, i + 1);
}

/// Counts one more bond between the occupants `a` and `b`.
pub fn record_pair<A: RandAtom>(list: &mut Vec<((A, A), u32)>, a: A, b: A)
    requires
        tidy(old(list)@),
        counted(old(list)@) < u32::MAX,
    ensures
        tidy(final(list)@),
        forall|e: spec_fn(A, A) -> int|
            #[trigger] weighted(final(list)@, e) == weighted(old(list)@, e) + e(a, b),
{
    let ghost before = list@;
    let mut i: usize = 0;
    while i < list.len()
        invariant
            list@ == before,
            before == old(list)@,
            tidy(before),
            counted(before) < u32::MAX,
            0 <= i <= before.len(),
            forall|j: int| 0 <= j < i ==> before[j].0 != (a, b),
        decreases before.len() - i,
    {
        let entry: ((A, A), u32) = list[i];
        proof {
            A::lemma_bytes(entry.0.0, a);
            A::lemma_bytes(entry.0.1, b);
        }
        if entry.0.0.value() == a.value() && entry.0.1.value() == b.value() {
            proof {
                lemma_count_within(before, i as int);
            }
            list.set(i, ((a, b), entry.1 + 1));
            proof {
                let after = list@;
                assert forall|e: spec_fn(A, A) -> int| #[trigger]
                    weighted(after, e) == weighted(before, e) + e(a, b) by {
                    let n = before.len() as int;
                    let f_new = |j: int| e(after[j].0.0, after[j].0.1) * after[j].1;
                    let f_old = |j: int| e(before[j].0.0, before[j].0.1) * before[j].1;
                    let diff = |j: int| f_new(j) - f_old(j);
                    lemma_sum_sub(f_new, f_old, n);
                    lemma_sum_point(diff, i as int, n);
                    assert(e(a, b) * (entry.1 + 1) - e(a, b) * entry.1 == e(a, b))
                        by (nonlinear_arith);
                }
            }
            return ;
        }
        i = i + 1;
    }
    list.push(((a, b), 1));
    proof {
        let after = list@;
        assert forall|e: spec_fn(A, A) -> int| #[trigger]
            weighted(after, e) == weighted(before, e) + e(a, b) by {
            let n = before.len() as int;
            let f_new = |j: int| e(after[j].0.0, after[j].0.1) * after[j].1;
            let f_old = |j: int| e(before[j].0.0, before[j].0.1) * before[j].1;
            lemma_sum_eq(f_new, f_old, n);
        }
    }
}

} // verus!
