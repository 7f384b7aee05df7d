use std::collections::BTreeMap;
use vstd::prelude::*;
use vstd::std_specs::btree::*;
use vstd::std_specs::cmp::OrdSpec;
use vstd::std_specs::iter::IteratorSpec;
use vstd::string::StringExecFns;

verus! {

broadcast use {vstd::std_specs::btree::group_btree_axioms, vstd::laws_cmp::group_laws_cmp};

/// How many clusters of each size exist: the view maps a cluster size to its multiplicity.
pub struct ClusterDistribution(BTreeMap<u32, u32>);

impl View for ClusterDistribution {
    type V = Map<u32, u32>;

    closed spec fn view(&self) -> Map<u32, u32> {
        self.0@
    }
}

/// The multiplicity that `m` records for `size`, zero where it records none.
pub open spec fn multiplicity(m: Map<u32, u32>, size: u32) -> nat {
    if m.contains_key(size) {
        m[size] as nat
    } else {
        0
    }
}

/// The distribution that holds, for every size either map knows, the sum of both multiplicities.
pub open spec fn merged(a: Map<u32, u32>, b: Map<u32, u32>) -> Map<u32, u32> {
    Map::new(
        |k: u32| a.contains_key(k) || b.contains_key(k),
        |k: u32| (multiplicity(a, k) + multiplicity(b, k)) as u32,
    )
}

impl ClusterDistribution {
    /// A distribution that records nothing.
    pub fn new() -> (r: Self)
        ensures
            r@ == Map::<u32, u32>::empty(),
    {
        Self(BTreeMap::new())
    }

    /// The distribution that `map` records.
    pub fn from_map(map: BTreeMap<u32, u32>) -> (r: Self)
        ensures
            r@ == map@,
    {
        Self(map)
    }

    /// The map from sizes to multiplicities.
    pub fn ref_map(&self) -> (r: &BTreeMap<u32, u32>)
        ensures
            r@ == self@,
    {
        &self.0
    }

    /// The map from sizes to multiplicities, taken out of the distribution.
    pub fn as_map(self) -> (r: BTreeMap<u32, u32>)
        ensures
            r@ == self@,
    {
        self.0
    }

    /// Adds every multiplicity of `other` to this distribution.
    pub fn combine(&mut self, other: &Self)
        requires
            forall|k: u32| multiplicity(old(self)@, k) + multiplicity(other@, k) <= u32::MAX,
        ensures
            final(self)@ == merged(old(self)@, other@),
    {
        let ghost before = self@;
        let entries = sorted_entries(&other.0);
        let mut i: usize = 0;
        proof {
            lemma_between_entries(entries@, other@, 0);
            assert(self@ =~= merged(before, sizes_below(other@, next_size(entries@, 0))));
        }
        while i < entries.len()
            invariant
                lists_ascending(entries@, other@),
                0 <= i <= entries@.len(),
                forall|k: u32| multiplicity(before, k) + multiplicity(other@, k) <= u32::MAX,
                self@ == merged(before, sizes_below(other@, next_size(entries@, i as int))),
            decreases entries@.len() - i,
        {
            let key: u32 = entries[i].0;
            let val: u32 = entries[i].1;
            let ghost done = sizes_below(other@, key as int);
            proof {
                assert(other@.contains_key(entries@[i as int].0));
                assert(multiplicity(before, key) + multiplicity(other@, key) <= u32::MAX);
                assert(!done.contains_key(key));
            }
            let present: u32 = match self.0.get(&key) {
                Some(v) => *v,
                None => 0,
            };
            self.0.insert(key, present + val);
            i = i + 1;
            proof {
                lemma_between_entries(entries@, other@, i as int);
                let now = sizes_below(other@, next_size(entries@, i as int));
                assert(now =~= done.insert(key, val));
                assert(self@ =~= merged(before, now));
            }
        }
        proof {
            assert(sizes_below(other@, next_size(entries@, i as int)) =~= other@);
        }
    }
}

/// The part of `m` that records sizes below `limit`.
pub open spec fn sizes_below(m: Map<u32, u32>, limit: int) -> Map<u32, u32> {
    m.restrict(Set::new(|k: u32| k < limit))
}

/// The size that entry `n` lists, or a limit above every size where the entries end before it.
pub open spec fn next_size(entries: Seq<(u32, u32)>, n: int) -> int {
    if 0 <= n < entries.len() {
        entries[n].0 as int
    } else {
        u32::MAX + 1
    }
}

/// Whether `entries` lists the pairs of `m` once each, by ascending size.
pub open spec fn lists_ascending(entries: Seq<(u32, u32)>, m: Map<u32, u32>) -> bool {
    &&& forall|i: int, j: int| 0 <= i < j < entries.len() ==> entries[i].0 < entries[j].0
    &&& forall|i: int|
        0 <= i < entries.len() ==> m.contains_key(#[trigger] entries[i].0) && m[entries[i].0]
            == entries[i].1
    &&& forall|k: u32|
        m.contains_key(k) ==> exists|i: int| 0 <= i < entries.len() && #[trigger] entries[i].0 == k
}

/// The pairs of `map`, by ascending size.
pub fn sorted_entries(map: &BTreeMap<u32, u32>) -> (r: Vec<(u32, u32)>)
    ensures
        lists_ascending(r@, map@),
{
    let mut out: Vec<(u32, u32)> = Vec::new();
    let iter = map.iter();
    let ghost items = iter.remaining();
    let ghost keys = items.map_values(|kv: (&u32, &u32)| *kv.0);
    assert(increasing_seq(keys));
    for kv in it: iter
        invariant
            it.seq() == items,
            out@.len() == it.index(),
            increasing_seq(keys),
            keys == items.map_values(|kv: (&u32, &u32)| *kv.0),
            forall|i: int| 0 <= i < out@.len() ==> out@[i] == (*items[i].0, *items[i].1),
    {
        out.push((*kv.0, *kv.1));
    }
    proof {
        axiom_increasing_seq_meaning::<u32>(keys);
        assert forall|i: int, j: int| 0 <= i < j < out@.len() implies out@[i].0 < out@[j].0 by {
            assert(keys[i] == out@[i].0);
            assert(keys[j] == out@[j].0);
            assert(keys[i].cmp_spec(&keys[j]) is Less);
        }
        assert forall|k: u32| map@.contains_key(k) implies exists|i: int|
            0 <= i < out@.len() && #[trigger] out@[i].0 == k by {
            let item = (&k, &map@[k]);
            assert(items.contains(item));
            let i = choose|i: int| 0 <= i < items.len() && items[i] == item;
            assert(out@[i].0 == k);
        }
    }
    out
}

/// What one size adds to a cumulative tally: its clusters, or the sites those clusters hold.
pub open spec fn entry_weight(size: u32, count: u32, by_sites: bool) -> nat {
    if by_sites {
        (size as nat) * (count as nat)
    } else {
        count as nat
    }
}

/// The weight of all recorded sizes up to and including `size`.
pub open spec fn weight_upto(m: Map<u32, u32>, size: int, by_sites: bool) -> nat
    decreases size + 1,
{
    if size < 0 {
        0
    } else {
        weight_upto(m, size - 1, by_sites) + if size <= u32::MAX && m.contains_key(size as u32) {
            entry_weight(size as u32, m[size as u32], by_sites)
        } else {
            0
        }
    }
}

/// The weight of the whole distribution.
pub open spec fn total_weight(m: Map<u32, u32>, by_sites: bool) -> nat {
    weight_upto(m, u32::MAX as int, by_sites)
}

/// The greatest recorded size not above `size` whose cumulative weight stays within `bound`,
/// and `fallback` where no recorded size does.
pub open spec fn last_within(
    m: Map<u32, u32>,
    bound: nat,
    size: int,
    by_sites: bool,
    fallback: u32,
) -> u32
    decreases size + 1,
{
    if size < 0 {
        fallback
    } else if size <= u32::MAX && m.contains_key(size as u32) && weight_upto(m, size, by_sites)
        <= bound {
        size as u32
    } else {
        last_within(m, bound, size - 1, by_sites, fallback)
    }
}

/// The greatest size whose cumulative weight is at most `num / den` of the total weight.
pub open spec fn quantile(m: Map<u32, u32>, num: nat, den: nat, by_sites: bool, fallback: u32) -> u32
    recommends
        den > 0,
{
    last_within(m, num * total_weight(m, by_sites) / den, u32::MAX as int, by_sites, fallback)
}

/// Whether `size` is the smallest size that `m` records.
pub open spec fn is_least_size(m: Map<u32, u32>, size: u32) -> bool {
    m.contains_key(size) && forall|k: u32| m.contains_key(k) ==> size <= k
}

/// Whether `size` is the largest size that `m` records.
pub open spec fn is_greatest_size(m: Map<u32, u32>, size: u32) -> bool {
    m.contains_key(size) && forall|k: u32| m.contains_key(k) ==> k <= size
}

/// Over a stretch of sizes that `m` does not record, neither the cumulative weight nor the
/// size found within a bound changes.
proof fn lemma_unrecorded_stretch(
    m: Map<u32, u32>,
    lo: int,
    hi: int,
    bound: nat,
    by_sites: bool,
    fallback: u32,
)
    requires
        -1 <= lo <= hi <= u32::MAX,
        forall|k: u32| lo < k <= hi ==> !m.contains_key(k),
    ensures
        weight_upto(m, hi, by_sites) == weight_upto(m, lo, by_sites),
        last_within(m, bound, hi, by_sites, fallback) == last_within(
            m,
            bound,
            lo,
            by_sites,
            fallback,
        ),
    decreases hi - lo,
{
    if lo < hi {
        assert(!m.contains_key(hi as u32));
        lemma_unrecorded_stretch(m, lo, hi - 1, bound, by_sites, fallback);
    }
}

/// A cumulative weight is at most `2^64` for each size it covers.
proof fn lemma_weight_bound(m: Map<u32, u32>, size: int, by_sites: bool)
    requires
        -1 <= size <= u32::MAX,
    ensures
        weight_upto(m, size, by_sites) <= (size + 1) * 0x1_0000_0000_0000_0000,
    decreases size + 1,
{
    if size >= 0 {
        lemma_weight_bound(m, size - 1, by_sites);
        let k = size as u32;
        assert((k as nat) * (m[k] as nat) <= 0x1_0000_0000_0000_0000) by (nonlinear_arith)
            requires
                k <= 0xffff_ffff,
                m[k] <= 0xffff_ffff,
        ;
        assert((size + 1) * 0x1_0000_0000_0000_0000 == size * 0x1_0000_0000_0000_0000
            + 0x1_0000_0000_0000_0000) by (nonlinear_arith);
    }
}

/// The size found within a bound is the fallback or a recorded size that is not above the
/// limit of the search, and a greater bound finds no smaller size, where the fallback is
/// itself no greater than every recorded size.
pub proof fn lemma_last_within_grows(
    m: Map<u32, u32>,
    low: nat,
    high: nat,
    size: int,
    by_sites: bool,
    fallback: u32,
)
    requires
        -1 <= size <= u32::MAX,
        low <= high,
        forall|k: u32| m.contains_key(k) ==> fallback <= k,
    ensures
        last_within(m, low, size, by_sites, fallback) <= last_within(
            m,
            high,
            size,
            by_sites,
            fallback,
        ),
        fallback <= last_within(m, low, size, by_sites, fallback),
        last_within(m, low, size, by_sites, fallback) == fallback || (m.contains_key(
            last_within(m, low, size, by_sites, fallback),
        ) && last_within(m, low, size, by_sites, fallback) <= size),
    decreases size + 1,
{
    if size >= 0 {
        lemma_last_within_grows(m, low, high, size - 1, by_sites, fallback);
        lemma_last_within_grows(m, high, high, size - 1, by_sites, fallback);
        if m.contains_key(size as u32) {
            assert(fallback <= size as u32);
        }
    }
}

/// Recording one more cluster of `size` adds one cluster, or `size` sites, to every
/// cumulative weight that covers that size.
pub proof fn lemma_one_more(m: Map<u32, u32>, size: u32, upto: int, by_sites: bool)
    requires
        multiplicity(m, size) < u32::MAX,
        -1 <= upto <= u32::MAX,
    ensures
        weight_upto(m.insert(size, (multiplicity(m, size) + 1) as u32), upto, by_sites)
            == weight_upto(m, upto, by_sites) + if size <= upto {
            entry_weight(size, 1, by_sites)
        } else {
            0
        },
    decreases upto + 1,
{
    if upto >= 0 {
        lemma_one_more(m, size, upto - 1, by_sites);
        if upto == size {
            let count = multiplicity(m, size);
            assert((size as nat) * ((count + 1) as nat) == (size as nat) * count + (size as nat)
                * 1) by (nonlinear_arith);
        }
    }
}

/// No single size weighs more than the cumulative weight that covers it.
pub proof fn lemma_entry_within(m: Map<u32, u32>, size: u32, upto: int, by_sites: bool)
    requires
        m.contains_key(size),
        size <= upto <= u32::MAX,
    ensures
        entry_weight(size, m[size], by_sites) <= weight_upto(m, upto, by_sites),
    decreases upto + 1,
{
    if upto > size {
        lemma_entry_within(m, size, upto - 1, by_sites);
    }
}

/// A distribution that records nothing weighs nothing.
pub proof fn lemma_empty_weight(upto: int, by_sites: bool)
    requires
        -1 <= upto,
    ensures
        weight_upto(Map::<u32, u32>::empty(), upto, by_sites) == 0,
    decreases upto + 1,
{
    if upto >= 0 {
        lemma_empty_weight(upto - 1, by_sites);
    }
}

/// The last size that the first `n` entries list, or -1 where `n` is zero.
pub open spec fn covered(entries: Seq<(u32, u32)>, n: int) -> int {
    if n <= 0 {
        -1
    } else {
        entries[n - 1].0 as int
    }
}

/// No size strictly between two neighbouring entries is recorded, nor any before the first
/// entry or after the last.
proof fn lemma_between_entries(entries: Seq<(u32, u32)>, m: Map<u32, u32>, n: int)
    requires
        lists_ascending(entries, m),
        0 <= n <= entries.len(),
    ensures
        forall|k: u32|
            covered(entries, n) < k && (n < entries.len() ==> k < entries[n].0)
                ==> !m.contains_key(k),
{
    assert forall|k: u32|
        covered(entries, n) < k && (n < entries.len() ==> k < entries[n].0) implies !m.contains_key(
        k,
    ) by {
        if m.contains_key(k) {
            let i = choose|i: int| 0 <= i < entries.len() && #[trigger] entries[i].0 == k;
            if i < n {
                if i < n - 1 {
                    assert(entries[i].0 < entries[n - 1].0);
                }
            } else if i > n {
                assert(entries[n].0 < entries[i].0);
            }
        }
    }
}

/// The weight of everything that `entries` lists.
fn sum_weights(entries: &Vec<(u32, u32)>, by_sites: bool, Ghost(m): Ghost<Map<u32, u32>>) -> (r:
    u128)
    requires
        lists_ascending(entries@, m),
    ensures
        r == total_weight(m, by_sites),
{
    let mut acc: u128 = 0;
    let mut i: usize = 0;
    proof {
        lemma_between_entries(entries@, m, 0);
        if entries@.len() > 0 {
            lemma_unrecorded_stretch(m, -1, entries@[0].0 - 1, 0, by_sites, 0);
        }
    }
    while i < entries.len()
        invariant
            lists_ascending(entries@, m),
            0 <= i <= entries@.len(),
            i < entries@.len() ==> acc == weight_upto(m, entries@[i as int].0 - 1, by_sites),
            i == entries@.len() ==> acc == weight_upto(m, covered(entries@, i as int), by_sites),
        decreases entries@.len() - i,
    {
        let size: u32 = entries[i].0;
        let count: u32 = entries[i].1;
        proof {
            lemma_weight_bound(m, size as int, by_sites);
            lemma_weight_bound(m, size - 1, by_sites);
            assert((size + 1) * 0x1_0000_0000_0000_0000 <= 0x1_0000_0000 * 0x1_0000_0000_0000_0000)
                by (nonlinear_arith)
                requires
                    size <= 0xffff_ffff,
            ;
            assert(m.contains_key(entries@[i as int].0));
            assert((size as nat) * (count as nat) <= 0xffff_ffff * 0xffff_ffff) by (nonlinear_arith)
                requires
                    size <= 0xffff_ffff,
                    count <= 0xffff_ffff,
            ;
        }
        let weight: u128 = if by_sites {
            (size as u128) * (count as u128)
        } else {
            count as u128
        };
        acc = acc + weight;
        i = i + 1;
        proof {
            lemma_between_entries(entries@, m, i as int);
            if i < entries@.len() {
                lemma_unrecorded_stretch(m, size as int, entries@[i as int].0 - 1, 0, by_sites, 0);
            }
        }
    }
    proof {
        lemma_between_entries(entries@, m, entries@.len() as int);
        lemma_unrecorded_stretch(
            m,
            covered(entries@, entries@.len() as int),
            u32::MAX as int,
            0,
            by_sites,
            0,
        );
    }
    acc
}

/// The three quartile sizes of what `entries` lists, found in one pass.
fn quartiles(
    entries: &Vec<(u32, u32)>,
    by_sites: bool,
    fallback: u32,
    Ghost(m): Ghost<Map<u32, u32>>,
) -> (r: (u32, u32, u32))
    requires
        lists_ascending(entries@, m),
    ensures
        r.0 == quantile(m, 1, 4, by_sites, fallback),
        r.1 == quantile(m, 1, 2, by_sites, fallback),
        r.2 == quantile(m, 3, 4, by_sites, fallback),
{
    let total: u128 = sum_weights(entries, by_sites, Ghost(m));
    proof {
        lemma_weight_bound(m, u32::MAX as int, by_sites);
    }
    let bound_1: u128 = total / 4;
    let bound_2: u128 = total / 2;
    let bound_3: u128 = 3 * total / 4;
    let mut acc: u128 = 0;
    let mut quart_1: u32 = fallback;
    let mut median: u32 = fallback;
    let mut quart_3: u32 = fallback;
    let mut i: usize = 0;
    proof {
        lemma_between_entries(entries@, m, 0);
        if entries@.len() > 0 {
            let first = entries@[0].0 - 1;
            lemma_unrecorded_stretch(m, -1, first, bound_1 as nat, by_sites, fallback);
            lemma_unrecorded_stretch(m, -1, first, bound_2 as nat, by_sites, fallback);
            lemma_unrecorded_stretch(m, -1, first, bound_3 as nat, by_sites, fallback);
        }
    }
    while i < entries.len()
        invariant
            lists_ascending(entries@, m),
            0 <= i <= entries@.len(),
            ({
                let upto = if i < entries@.len() {
                    entries@[i as int].0 - 1
                } else {
                    covered(entries@, i as int)
                };
                &&& acc == weight_upto(m, upto, by_sites)
                &&& quart_1 == last_within(m, bound_1 as nat, upto, by_sites, fallback)
                &&& median == last_within(m, bound_2 as nat, upto, by_sites, fallback)
                &&& quart_3 == last_within(m, bound_3 as nat, upto, by_sites, fallback)
            }),
        decreases entries@.len() - i,
    {
        let size: u32 = entries[i].0;
        let count: u32 = entries[i].1;
        proof {
            lemma_weight_bound(m, size as int, by_sites);
            lemma_weight_bound(m, size - 1, by_sites);
            assert((size + 1) * 0x1_0000_0000_0000_0000 <= 0x1_0000_0000 * 0x1_0000_0000_0000_0000)
                by (nonlinear_arith)
                requires
                    size <= 0xffff_ffff,
            ;
            assert(m.contains_key(entries@[i as int].0));
            assert((size as nat) * (count as nat) <= 0xffff_ffff * 0xffff_ffff) by (nonlinear_arith)
                requires
                    size <= 0xffff_ffff,
                    count <= 0xffff_ffff,
            ;
        }
        let weight: u128 = if by_sites {
            (size as u128) * (count as u128)
        } else {
            count as u128
        };
        acc = acc + weight;
        if acc <= bound_1 {
            quart_1 = size;
        }
        if acc <= bound_2 {
            median = size;
        }
        if acc <= bound_3 {
            quart_3 = size;
        }
        i = i + 1;
        proof {
            lemma_between_entries(entries@, m, i as int);
            if i < entries@.len() {
                let next = entries@[i as int].0 - 1;
                lemma_unrecorded_stretch(m, size as int, next, bound_1 as nat, by_sites, fallback);
                lemma_unrecorded_stretch(m, size as int, next, bound_2 as nat, by_sites, fallback);
                lemma_unrecorded_stretch(m, size as int, next, bound_3 as nat, by_sites, fallback);
            }
        }
    }
    proof {
        let n = entries@.len() as int;
        let top = u32::MAX as int;
        lemma_between_entries(entries@, m, n);
        lemma_unrecorded_stretch(m, covered(entries@, n), top, bound_1 as nat, by_sites, fallback);
        lemma_unrecorded_stretch(m, covered(entries@, n), top, bound_2 as nat, by_sites, fallback);
        lemma_unrecorded_stretch(m, covered(entries@, n), top, bound_3 as nat, by_sites, fallback);
    }
    (quart_1, median, quart_3)
}

/// The characters of a prefix, none where no prefix is given.
pub open spec fn label(prefix: Option<&str>) -> Seq<char> {
    match prefix {
        Some(p) => p@,
        None => Seq::<char>::empty(),
    }
}

/// `name` with `prefix` before it where one is given.
fn with_prefix(prefix: Option<&str>, name: &str) -> (r: String)
    ensures
        r@ == label(prefix) + name@,
{
    match prefix {
        Some(p) => {
            let mut temp = String::from_str(p);
            temp.append(name);
            temp
        },
        None => {
            let plain = String::from_str(name);
            assert(plain@ =~= Seq::<char>::empty() + name@);
            plain
        },
    }
}

/// Five sizes that summarise a distribution of cluster sizes.
#[derive(Debug, Clone, Copy)]
pub struct ClusterStats {
    pub min: u32,
    pub quart_1: u32,
    pub median: u32,
    pub quart_3: u32,
    pub max: u32,
}

impl ClusterStats {
    /// Quartiles by number of clusters: each is the greatest size up to which at most that
    /// share of all clusters lies, and 0 where the smallest size already exceeds the share.
    pub fn from_map_block(map: &ClusterDistribution) -> (r: Self)
        requires
            exists|k: u32| map@.contains_key(k),
        ensures
            is_least_size(map@, r.min),
            is_greatest_size(map@, r.max),
            r.quart_1 == quantile(map@, 1, 4, false, 0),
            r.median == quantile(map@, 1, 2, false, 0),
            r.quart_3 == quantile(map@, 3, 4, false, 0),
    {
        let entries = sorted_entries(map.ref_map());
        proof {
            lemma_ends(entries@, map@);
        }
        let q = quartiles(&entries, false, 0, Ghost(map@));
        Self {
            min: entries[0].0,
            quart_1: q.0,
            median: q.1,
            quart_3: q.2,
            max: entries[entries.len() - 1].0,
        }
    }

    /// Quartiles by number of sites: each is the greatest size up to which at most that share
    /// of all clustered sites lies, and the smallest size where even that exceeds the share.
    pub fn from_map_atom(map: &ClusterDistribution) -> (r: Self)
        requires
            exists|k: u32| map@.contains_key(k),
        ensures
            is_least_size(map@, r.min),
            is_greatest_size(map@, r.max),
            r.quart_1 == quantile(map@, 1, 4, true, r.min),
            r.median == quantile(map@, 1, 2, true, r.min),
            r.quart_3 == quantile(map@, 3, 4, true, r.min),
            r.min <= r.quart_1 <= r.median <= r.quart_3 <= r.max,
    {
        let entries = sorted_entries(map.ref_map());
        proof {
            lemma_ends(entries@, map@);
        }
        let least: u32 = entries[0].0;
        let q = quartiles(&entries, true, least, Ghost(map@));
        proof {
            let total = total_weight(map@, true);
            let top = u32::MAX as int;
            assert(1 * total / 4 <= 1 * total / 2 <= 3 * total / 4);
            lemma_last_within_grows(map@, 1 * total / 4, 1 * total / 2, top, true, least);
            lemma_last_within_grows(map@, 1 * total / 2, 3 * total / 4, top, true, least);
            lemma_last_within_grows(map@, 3 * total / 4, 3 * total / 4, top, true, least);
        }
        Self {
            min: least,
            quart_1: q.0,
            median: q.1,
            quart_3: q.2,
            max: entries[entries.len() - 1].0,
        }
    }

    /// The names of the five sizes, each with `prefix` before it where one is given.
    pub fn get_categories(prefix: Option<&str>) -> (r: Vec<String>)
        ensures
            r@.len() == 5,
            r@[0]@ == label(prefix) + "min"@,
            r@[1]@ == label(prefix) + "quart_1"@,
            r@[2]@ == label(prefix) + "median"@,
            r@[3]@ == label(prefix) + "quart_3"@,
            r@[4]@ == label(prefix) + "max"@,
    {
        let mut out: Vec<String> = Vec::new();
        out.push(with_prefix(prefix, "min"));
        out.push(with_prefix(prefix, "quart_1"));
        out.push(with_prefix(prefix, "median"));
        out.push(with_prefix(prefix, "quart_3"));
        out.push(with_prefix(prefix, "max"));
        out
    }

    /// Whether the five sizes are in ascending order.
    pub fn valid(&self) -> (r: bool)
        ensures
            r == (self.min <= self.quart_1 && self.quart_1 <= self.median && self.median
                <= self.quart_3 && self.quart_3 <= self.max),
    {
        self.min <= self.quart_1 && self.quart_1 <= self.median && self.median <= self.quart_3
            && self.quart_3 <= self.max
    }
}

/// An ascending list of a map that records something starts at its least size and ends at its
/// greatest.
proof fn lemma_ends(entries: Seq<(u32, u32)>, m: Map<u32, u32>)
    requires
        lists_ascending(entries, m),
        exists|k: u32| m.contains_key(k),
    ensures
        entries.len() > 0,
        is_least_size(m, entries[0].0),
        is_greatest_size(m, entries[entries.len() - 1].0),
{
    let k0 = choose|k: u32| m.contains_key(k);
    let i0 = choose|i: int| 0 <= i < entries.len() && #[trigger] entries[i].0 == k0;
    let last = entries.len() - 1;
    assert(m.contains_key(entries[0].0));
    assert(m.contains_key(entries[last].0));
    assert forall|k: u32| m.contains_key(k) implies entries[0].0 <= k <= entries[last].0 by {
        let i = choose|i: int| 0 <= i < entries.len() && #[trigger] entries[i].0 == k;
        if 0 < i {
            assert(entries[0].0 < entries[i].0);
        }
        if i < last {
            assert(entries[i].0 < entries[last].0);
        }
    }
}

/// The five sizes of each summary, gathered size by size: all minima first, all maxima last.
pub fn disentangle(cluster_stats: Vec<ClusterStats>) -> (r: [Vec<u32>; 5])
    ensures
        r[0]@ == cluster_stats@.map_values(|s: ClusterStats| s.min),
        r[1]@ == cluster_stats@.map_values(|s: ClusterStats| s.quart_1),
        r[2]@ == cluster_stats@.map_values(|s: ClusterStats| s.median),
        r[3]@ == cluster_stats@.map_values(|s: ClusterStats| s.quart_3),
        r[4]@ == cluster_stats@.map_values(|s: ClusterStats| s.max),
{
    let mut mins: Vec<u32> = Vec::new();
    let mut firsts: Vec<u32> = Vec::new();
    let mut medians: Vec<u32> = Vec::new();
    let mut thirds: Vec<u32> = Vec::new();
    let mut maxs: Vec<u32> = Vec::new();
    let mut i: usize = 0;
    while i < cluster_stats.len()
        invariant
            0 <= i <= cluster_stats@.len(),
            mins@ == cluster_stats@.take(i as int).map_values(|s: ClusterStats| s.min),
            firsts@ == cluster_stats@.take(i as int).map_values(|s: ClusterStats| s.quart_1),
            medians@ == cluster_stats@.take(i as int).map_values(|s: ClusterStats| s.median),
            thirds@ == cluster_stats@.take(i as int).map_values(|s: ClusterStats| s.quart_3),
            maxs@ == cluster_stats@.take(i as int).map_values(|s: ClusterStats| s.max),
        decreases cluster_stats@.len() - i,
    {
        let stats: ClusterStats = cluster_stats[i];
        mins.push(stats.min);
        firsts.push(stats.quart_1);
        medians.push(stats.median);
        thirds.push(stats.quart_3);
        maxs.push(stats.max);
        i = i + 1;
        proof {
            let done = cluster_stats@.take(i as int);
            let prev = cluster_stats@.take(i - 1);
            assert(done =~= prev.push(stats));
            assert(mins@ =~= done.map_values(|s: ClusterStats| s.min));
            assert(firsts@ =~= done.map_values(|s: ClusterStats| s.quart_1));
            assert(medians@ =~= done.map_values(|s: ClusterStats| s.median));
            assert(thirds@ =~= done.map_values(|s: ClusterStats| s.quart_3));
            assert(maxs@ =~= done.map_values(|s: ClusterStats| s.max));
        }
    }
    proof {
        assert(cluster_stats@.take(cluster_stats@.len() as int) =~= cluster_stats@);
    }
    [mins, firsts, medians, thirds, maxs]
}

} // verus!
