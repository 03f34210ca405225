//! Candidate assignments of properties to categories, and their scoring.
use vstd::prelude::*;
use crate::random::{below, coin};

verus! {

/// Target shares are given in parts per million.
pub const PPM: u32 = 1_000_000;

/// How far, in parts per million, the target shares may sum away from one.
pub const SHARE_TOLERANCE: u32 = 1_000;

/// Largest number of categories a dataset may name.
pub const MAX_CATEGORIES: usize = 65536;

/// Sum of the first `n` entries of `w`.
pub open spec fn weight_sum(w: Seq<u32>, n: int) -> int
    decreases n,
{
    if n <= 0 || n > w.len() {
        0
    } else {
        weight_sum(w, n - 1) + w[n - 1] as int
    }
}

/// Sum of all entries of `w`.
pub open spec fn total(w: Seq<u32>) -> int {
    weight_sum(w, w.len() as int)
}

/// Weight that the first `n` properties put into category `c`.
pub open spec fn category_weight(data: Seq<u32>, w: Seq<u32>, c: int, n: int) -> int
    decreases n,
{
    if n <= 0 || n > data.len() || n > w.len() {
        0
    } else {
        category_weight(data, w, c, n - 1) + if data[n - 1] as int == c {
            w[n - 1] as int
        } else {
            0
        }
    }
}

/// Number of the first `n` positions assigned to category `c`.
pub open spec fn category_count(data: Seq<u32>, c: int, n: int) -> int
    decreases n,
{
    if n <= 0 || n > data.len() {
        0
    } else {
        category_count(data, c, n - 1) + if data[n - 1] as int == c {
            1int
        } else {
            0
        }
    }
}

pub open spec fn distance(a: int, b: int) -> int {
    if a >= b {
        a - b
    } else {
        b - a
    }
}

/// Gap, scaled by `PPM * total(w)`, between the target share
/// `targets[c] / PPM` and the achieved share of category `c`.
pub open spec fn share_gap(data: Seq<u32>, targets: Seq<u32>, w: Seq<u32>, c: int) -> int {
    distance(
        targets[c] as int * total(w),
        PPM as int * category_weight(data, w, c, data.len() as int),
    )
}

pub open spec fn deviation_upto(data: Seq<u32>, targets: Seq<u32>, w: Seq<u32>, m: int) -> int
    decreases m,
{
    if m <= 0 || m > targets.len() {
        0
    } else {
        deviation_upto(data, targets, w, m - 1) + share_gap(data, targets, w, m - 1)
    }
}

/// Fitness of an assignment: the sum over categories of the distance between
/// the target share `targets[c] / PPM` and the achieved share
/// `category_weight(c) / total(w)`, scaled by `PPM * total(w)` so
/// that it is an exact integer. Lower is better; zero is a perfect split.
pub open spec fn deviation(data: Seq<u32>, targets: Seq<u32>, w: Seq<u32>) -> int {
    deviation_upto(data, targets, w, targets.len() as int)
}

/// The targets and weights a run may be given: at least one category and at
/// most `MAX_CATEGORIES`, target shares (in parts per million) summing to
/// one within `SHARE_TOLERANCE`, at least one property, every weight positive, and a weight sum that fits in `u32`.
pub open spec fn dataset_ok(targets: Seq<u32>, w: Seq<u32>) -> bool {
    &&& 1 <= targets.len() <= MAX_CATEGORIES
    &&& PPM - SHARE_TOLERANCE <= total(targets) <= PPM + SHARE_TOLERANCE
    &&& 1 <= w.len()
    &&& forall|i: int| 0 <= i < w.len() ==> w[i] > 0
    &&& total(w) <= u32::MAX
}

/// An assignment of `n` properties to categories below `k`.
pub open spec fn valid_assignment(data: Seq<u32>, n: int, k: int) -> bool {
    data.len() == n && forall|i: int| 0 <= i < data.len() ==> (data[i] as int) < k
}

/// Children of a uniform crossover: where `mask` holds, the first child takes
/// the second parent's value; elsewhere it keeps the first parent's.
pub open spec fn crossed(a: Seq<u32>, b: Seq<u32>, mask: Seq<bool>, n: int) -> Seq<u32> {
    Seq::new(n as nat, |i: int| if mask[i] { b[i] } else { a[i] })
}

/// Child of a two-point crossover: `a`'s values at positions in `[p1, p2]`,
/// `b`'s elsewhere.
pub open spec fn two_point(a: Seq<u32>, b: Seq<u32>, p1: int, p2: int, len: int) -> Seq<u32> {
    Seq::new(len as nat, |n: int| if p1 <= n <= p2 { a[n] } else { b[n] })
}

/// `d` with `values[j]` written at `positions[j]`, for `j` below `m` in turn.
pub open spec fn mutated(d: Seq<u32>, positions: Seq<usize>, values: Seq<u32>, m: int) -> Seq<u32>
    decreases m,
{
    if m <= 0 || m > positions.len() || m > values.len() {
        d
    } else {
        let prev = mutated(d, positions, values, m - 1);
        let p = positions[m - 1] as int;
        if 0 <= p < prev.len() {
            prev.update(p, values[m - 1])
        } else {
            prev
        }
    }
}

/// Number of positions below `n` where `a` and `b` differ.
pub open spec fn differing(a: Seq<u32>, b: Seq<u32>, n: int) -> int
    decreases n,
{
    if n <= 0 {
        0
    } else {
        differing(a, b, n - 1) + if a[n - 1] != b[n - 1] {
            1int
        } else {
            0
        }
    }
}

pub open spec fn count_gap_upto(a: Seq<u32>, b: Seq<u32>, n: int, m: int) -> int
    decreases m,
{
    if m <= 0 {
        0
    } else {
        count_gap_upto(a, b, n, m - 1) + distance(
            category_count(a, m - 1, n),
            category_count(b, m - 1, n),
        )
    }
}

pub proof fn lemma_weight_sum_mono(w: Seq<u32>, i: int, j: int)
    requires
        0 <= i <= j <= w.len(),
    ensures
        weight_sum(w, i) <= weight_sum(w, j),
    decreases j - i,
{
    if i < j {
        lemma_weight_sum_mono(w, i, j - 1);
    }
}

proof fn lemma_category_weight_bound(data: Seq<u32>, w: Seq<u32>, c: int, n: int)
    requires
        0 <= n <= data.len(),
        n <= w.len(),
    ensures
        0 <= category_weight(data, w, c, n) <= weight_sum(w, n),
    decreases n,
{
    if n > 0 {
        lemma_category_weight_bound(data, w, c, n - 1);
    }
}

proof fn lemma_category_count_bound(data: Seq<u32>, c: int, n: int)
    requires
        0 <= n <= data.len(),
    ensures
        0 <= category_count(data, c, n) <= n,
    decreases n,
{
    if n > 0 {
        lemma_category_count_bound(data, c, n - 1);
    }
}

proof fn lemma_deviation_upto_nonneg(data: Seq<u32>, targets: Seq<u32>, w: Seq<u32>, m: int)
    ensures
        deviation_upto(data, targets, w, m) >= 0,
    decreases m,
{
    if m > 0 {
        lemma_deviation_upto_nonneg(data, targets, w, m - 1);
    }
}

/// A fitness is never negative, and it is zero exactly when every category's
/// achieved share equals its target share
/// (`targets[c] / PPM == category_weight(c) / total(w)`, cross-multiplied).
pub proof fn lemma_fitness_zero_iff_exact(data: Seq<u32>, targets: Seq<u32>, w: Seq<u32>)
    ensures
        deviation(data, targets, w) >= 0,
        deviation(data, targets, w) == 0 <==> forall|c: int|
            0 <= c < targets.len() ==> #[trigger] (targets[c] as int * total(w)) == PPM as int
                * category_weight(data, w, c, data.len() as int),
{
    lemma_deviation_zero_upto(data, targets, w, targets.len() as int);
}

proof fn lemma_deviation_zero_upto(data: Seq<u32>, targets: Seq<u32>, w: Seq<u32>, m: int)
    requires
        0 <= m <= targets.len(),
    ensures
        deviation_upto(data, targets, w, m) >= 0,
        deviation_upto(data, targets, w, m) == 0 <==> forall|c: int|
            0 <= c < m ==> #[trigger] (targets[c] as int * total(w)) == PPM as int
                * category_weight(data, w, c, data.len() as int),
    decreases m,
{
    if m > 0 {
        lemma_deviation_zero_upto(data, targets, w, m - 1);
        lemma_deviation_upto_nonneg(data, targets, w, m - 1);
    }
}

proof fn lemma_all_in_first(data: Seq<u32>, w: Seq<u32>, n: int)
    requires
        0 <= n <= data.len(),
        n <= w.len(),
        forall|i: int| 0 <= i < data.len() ==> data[i] == 0,
    ensures
        category_weight(data, w, 0, n) == weight_sum(w, n),
    decreases n,
{
    if n > 0 {
        lemma_all_in_first(data, w, n - 1);
    }
}

/// With a single category whose target share is one, every valid
/// assignment is a perfect split.
pub proof fn lemma_single_category_is_exact(data: Seq<u32>, targets: Seq<u32>, w: Seq<u32>)
    requires
        targets.len() == 1,
        targets[0] == PPM,
        valid_assignment(data, w.len() as int, 1),
    ensures
        deviation(data, targets, w) == 0,
{
    lemma_all_in_first(data, w, data.len() as int);
    assert(weight_sum(targets, 1) == targets[0] as int + weight_sum(targets, 0));
    assert(deviation_upto(data, targets, w, 0) == 0);
    assert(share_gap(data, targets, w, 0) == 0);
}

proof fn lemma_differing_update(s: Seq<u32>, d: Seq<u32>, p: int, v: u32, n: int)
    requires
        0 <= n <= s.len(),
        s.len() == d.len(),
        0 <= p < s.len(),
    ensures
        differing(s.update(p, v), d, n) <= differing(s, d, n) + 1,
        differing(s.update(p, v), d, n) >= differing(s, d, n) - 1,
        p >= n ==> differing(s.update(p, v), d, n) == differing(s, d, n),
    decreases n,
{
    if n > 0 {
        lemma_differing_update(s, d, p, v, n - 1);
    }
}

pub proof fn lemma_differing_self(d: Seq<u32>, n: int)
    requires
        0 <= n <= d.len(),
    ensures
        differing(d, d, n) == 0,
    decreases n,
{
    if n > 0 {
        lemma_differing_self(d, n - 1);
    }
}

/// Writing `m` values into an assignment changes it in at most `m` positions,
/// keeps its length, and leaves every value either as it was or one of the
/// values written.
pub proof fn lemma_mutation_span(d: Seq<u32>, positions: Seq<usize>, values: Seq<u32>, m: int)
    requires
        0 <= m <= positions.len(),
        m <= values.len(),
    ensures
        mutated(d, positions, values, m).len() == d.len(),
        differing(mutated(d, positions, values, m), d, d.len() as int) <= m,
        forall|i: int|
            0 <= i < d.len() ==> #[trigger] mutated(d, positions, values, m)[i] == d[i] || exists|
                j: int,
            | 0 <= j < m && mutated(d, positions, values, m)[i] == values[j],
    decreases m,
{
    if m == 0 {
        lemma_differing_self(d, d.len() as int);
    } else {
        lemma_mutation_span(d, positions, values, m - 1);
        let prev = mutated(d, positions, values, m - 1);
        let p = positions[m - 1] as int;
        if 0 <= p < prev.len() {
            lemma_differing_update(prev, d, p, values[m - 1], d.len() as int);
            assert forall|i: int| 0 <= i < d.len() implies #[trigger] mutated(
                d,
                positions,
                values,
                m,
            )[i] == d[i] || exists|j: int|
                0 <= j < m && mutated(d, positions, values, m)[i] == values[j] by {
                if i == p {
                    assert(mutated(d, positions, values, m)[i] == values[m - 1]);
                } else {
                    assert(mutated(d, positions, values, m)[i] == prev[i]);
                    if prev[i] != d[i] {
                        let j = choose|j: int| 0 <= j < m - 1 && prev[i] == values[j];
                        assert(0 <= j < m && mutated(d, positions, values, m)[i] == values[j]);
                    }
                }
            }
        } else {
            assert forall|i: int| 0 <= i < d.len() implies #[trigger] mutated(
                d,
                positions,
                values,
                m,
            )[i] == d[i] || exists|j: int|
                0 <= j < m && mutated(d, positions, values, m)[i] == values[j] by {
                if prev[i] != d[i] {
                    let j = choose|j: int| 0 <= j < m - 1 && prev[i] == values[j];
                    assert(0 <= j < m && mutated(d, positions, values, m)[i] == values[j]);
                }
            }
        }
    }
}

/// A candidate assignment and its fitness, `None` until it has been evaluated.
#[derive(Clone)]
pub struct Gene {
    pub data: Vec<u32>,
    pub fitness: Option<u128>,
}

impl Default for Gene {
    fn default() -> (r: Gene)
        ensures
            r.data@.len() == 0,
            r.fitness is None,
    {
        Gene { data: Vec::new(), fitness: None }
    }
}

/// Sum of the entries of `w`, when it fits in `u32`.
pub fn sum_of(w: &Vec<u32>) -> (r: u64)
    requires
        total(w@) <= u32::MAX,
    ensures
        r as int == total(w@),
{
    let mut s: u64 = 0;
    let mut i: usize = 0;
    while i < w.len()
        invariant
            0 <= i <= w.len(),
            s as int == weight_sum(w@, i as int),
            total(w@) <= u32::MAX,
        decreases w.len() - i,
    {
        proof {
            lemma_weight_sum_mono(w@, i as int + 1, w.len() as int);
        }
        s = s + w[i] as u64;
        i = i + 1;
    }
    s
}

/// Fitness of `data` against `targets` and `weights`: exactly `deviation`.
pub fn fitness_of(data: &Vec<u32>, targets: &Vec<u32>, weights: &Vec<u32>) -> (r: u128)
    requires
        dataset_ok(targets@, weights@),
        valid_assignment(data@, weights@.len() as int, targets@.len() as int),
    ensures
        r as int == deviation(data@, targets@, weights@),
        r <= targets@.len() * 0x1_0000_0000_0000_0000,
{
    let wsum = sum_of(weights);
    let tsum: u64 = PPM as u64;
    let k = targets.len();
    let n = data.len();
    let mut buckets: Vec<u64> = vec![0u64; k];
    let mut i: usize = 0;
    while i < n
        invariant
            0 <= i <= n,
            n == data@.len(),
            n == weights@.len(),
            buckets@.len() == k,
            k == targets@.len(),
            wsum as int == total(weights@),
            dataset_ok(targets@, weights@),
            valid_assignment(data@, n as int, k as int),
            forall|c: int|
                0 <= c < k ==> #[trigger] buckets@[c] as int == category_weight(
                    data@,
                    weights@,
                    c,
                    i as int,
                ),
        decreases n - i,
    {
        let c = data[i] as usize;
        proof {
            lemma_category_weight_bound(data@, weights@, c as int, i as int + 1);
            lemma_weight_sum_mono(weights@, i as int + 1, n as int);
        }
        let b = buckets[c] + weights[i] as u64;
        buckets.set(c, b);
        i = i + 1;
    }
    let mut acc: u128 = 0;
    let mut j: usize = 0;
    while j < k
        invariant
            0 <= j <= k,
            k == targets@.len(),
            k <= MAX_CATEGORIES,
            n == data@.len(),
            n == weights@.len(),
            buckets@.len() == k,
            wsum as int == total(weights@),
            tsum as int == PPM as int,
            wsum <= u32::MAX,
            tsum <= u32::MAX,
            forall|c: int|
                0 <= c < k ==> #[trigger] buckets@[c] as int == category_weight(
                    data@,
                    weights@,
                    c,
                    n as int,
                ),
            acc as int == deviation_upto(data@, targets@, weights@, j as int),
            acc <= j as u128 * 0x1_0000_0000_0000_0000u128,
        decreases k - j,
    {
        proof {
            lemma_category_weight_bound(data@, weights@, j as int, n as int);
        }
        let b = buckets[j];
        assert(b <= u32::MAX);
        let tj = targets[j];
        assert(tj as int * wsum as int <= 0xffff_ffff_ffff_ffffint) by (nonlinear_arith)
            requires
                wsum <= u32::MAX,
                tj <= u32::MAX,
        ;
        assert(tsum as int * b as int <= 0xffff_ffff_ffff_ffffint) by (nonlinear_arith)
            requires
                tsum <= u32::MAX,
                b <= u32::MAX,
        ;
        let t: u128 = tj as u128 * wsum as u128;
        let p: u128 = tsum as u128 * b as u128;
        let g: u128 = if t >= p {
            t - p
        } else {
            p - t
        };
        acc = acc + g;
        j = j + 1;
    }
    acc
}

impl Gene {
    /// Fills the assignment with `data_len` values drawn uniformly from
    /// `[min_value, max_value)` and marks the gene unevaluated.
    pub fn init(
        &mut self,
        data_len: usize,
        min_value: u32,
        max_value: u32,
        rng: &mut rand::rngs::StdRng,
    )
        requires
            min_value < max_value,
        ensures
            final(self).data@.len() == data_len,
            forall|i: int|
                0 <= i < data_len ==> min_value <= #[trigger] final(self).data@[i] < max_value,
            final(self).fitness is None,
    {
        self.data.clear();
        self.fitness = None;
        let mut n: usize = 0;
        while n < data_len
            invariant
                0 <= n <= data_len,
                min_value < max_value,
                self.data@.len() == n,
                forall|i: int| 0 <= i < n ==> min_value <= #[trigger] self.data@[i] < max_value,
                self.fitness is None,
            decreases data_len - n,
        {
            let r = below(rng, (max_value - min_value) as usize);
            self.data.push(min_value + r as u32);
            n = n + 1;
        }
    }

    /// Scores the assignment: the fitness becomes `Some(deviation(..))`.
    pub fn set_fitness(&mut self, divide: &Vec<u32>, properties: &Vec<u32>)
        requires
            dataset_ok(divide@, properties@),
            valid_assignment(old(self).data@, properties@.len() as int, divide@.len() as int),
        ensures
            final(self).data == old(self).data,
            final(self).fitness == Some(deviation(old(self).data@, divide@, properties@) as u128),
            deviation(old(self).data@, divide@, properties@) <= divide@.len() * 0x1_0000_0000_0000_0000,
    {
        let f = fitness_of(&self.data, divide, properties);
        self.fitness = Some(f);
    }

    /// A copy of the gene with the same assignment and fitness.
    pub fn duplicate(&self) -> (r: Gene)
        ensures
            r.data@ == self.data@,
            r.fitness == self.fitness,
    {
        Gene { data: self.data.clone(), fitness: self.fitness }
    }

    /// Two-point crossover at the given cut points: the first child takes
    /// this gene's values at positions in `[p1, p2]` and the other parent's
    /// values elsewhere; the second child takes the rest.
    pub fn crossover_at(&self, another: &Gene, p1: usize, p2: usize) -> (r: (Gene, Gene))
        requires
            self.data@.len() <= another.data@.len(),
        ensures
            r.0.data@ == two_point(self.data@, another.data@, p1 as int, p2 as int, self.data@.len() as int),
            r.1.data@ == two_point(another.data@, self.data@, p1 as int, p2 as int, self.data@.len() as int),
            r.0.fitness is None,
            r.1.fitness is None,
    {
        let len = self.data.len();
        let mut g1: Vec<u32> = Vec::new();
        let mut g2: Vec<u32> = Vec::new();
        let mut n: usize = 0;
        while n < len
            invariant
                0 <= n <= len,
                len == self.data@.len(),
                len <= another.data@.len(),
                g1@.len() == n,
                g2@.len() == n,
                forall|i: int|
                    0 <= i < n ==> #[trigger] g1@[i] == if p1 <= i <= p2 {
                        self.data@[i]
                    } else {
                        another.data@[i]
                    },
                forall|i: int|
                    0 <= i < n ==> #[trigger] g2@[i] == if p1 <= i <= p2 {
                        another.data@[i]
                    } else {
                        self.data@[i]
                    },
            decreases len - n,
        {
            if n >= p1 && n <= p2 {
                g1.push(self.data[n]);
                g2.push(another.data[n]);
            } else {
                g1.push(another.data[n]);
                g2.push(self.data[n]);
            }
            n = n + 1;
        }
        assert(g1@ =~= two_point(self.data@, another.data@, p1 as int, p2 as int, self.data@.len() as int));
        assert(g2@ =~= two_point(another.data@, self.data@, p1 as int, p2 as int, self.data@.len() as int));
        (Gene { data: g1, fitness: None }, Gene { data: g2, fitness: None })
    }

    /// Two-point crossover at cut points drawn uniformly from the positions.
    pub fn crossover(&self, another: &Gene, rng: &mut rand::rngs::StdRng) -> (r: (Gene, Gene))
        requires
            self.data@.len() <= another.data@.len(),
            self.data@.len() > 0,
        ensures
            r.0.data@.len() == self.data@.len(),
            r.1.data@.len() == self.data@.len(),
            forall|n: int|
                0 <= n < self.data@.len() ==> (#[trigger] r.0.data@[n] == self.data@[n]
                    && r.1.data@[n] == another.data@[n]) || (r.0.data@[n] == another.data@[n]
                    && r.1.data@[n] == self.data@[n]),
            exists|p1: int, p2: int|
                0 <= p1 < self.data@.len() && 0 <= p2 < self.data@.len() && r.0.data@ == two_point(
                    self.data@,
                    another.data@,
                    p1,
                    p2,
                    self.data@.len() as int,
                ) && #[trigger] two_point(another.data@, self.data@, p1, p2, self.data@.len() as int) == r.1.data@,
            r.0.fitness is None,
            r.1.fitness is None,
    {
        let len = self.data.len();
        let p1 = below(rng, len);
        let p2 = below(rng, len);
        let r = self.crossover_at(another, p1, p2);
        assert(two_point(another.data@, self.data@, p1 as int, p2 as int, self.data@.len() as int) == r.1.data@);
        r
    }

    /// Uniform crossover with a given mask: where the mask holds, the first
    /// child takes the other parent's value and the second child this gene's;
    /// elsewhere the reverse.
    pub fn uniform_crossover_masked(&self, another: &Gene, mask: &Vec<bool>) -> (r: (Gene, Gene))
        requires
            self.data@.len() <= another.data@.len(),
            mask@.len() == self.data@.len(),
        ensures
            r.0.data@ == crossed(self.data@, another.data@, mask@, self.data@.len() as int),
            r.1.data@ == crossed(another.data@, self.data@, mask@, self.data@.len() as int),
            r.0.fitness is None,
            r.1.fitness is None,
    {
        let len = self.data.len();
        let mut g1: Vec<u32> = Vec::new();
        let mut g2: Vec<u32> = Vec::new();
        let mut n: usize = 0;
        while n < len
            invariant
                0 <= n <= len,
                len == self.data@.len(),
                len <= another.data@.len(),
                len == mask@.len(),
                g1@.len() == n,
                g2@.len() == n,
                forall|i: int|
                    0 <= i < n ==> #[trigger] g1@[i] == crossed(
                        self.data@,
                        another.data@,
                        mask@,
                        self.data@.len() as int,
                    )[i],
                forall|i: int|
                    0 <= i < n ==> #[trigger] g2@[i] == crossed(
                        another.data@,
                        self.data@,
                        mask@,
                        self.data@.len() as int,
                    )[i],
            decreases len - n,
        {
            if mask[n] {
                g1.push(another.data[n]);
                g2.push(self.data[n]);
            } else {
                g1.push(self.data[n]);
                g2.push(another.data[n]);
            }
            n = n + 1;
        }
        assert(g1@ =~= crossed(self.data@, another.data@, mask@, self.data@.len() as int));
        assert(g2@ =~= crossed(another.data@, self.data@, mask@, self.data@.len() as int));
        (Gene { data: g1, fitness: None }, Gene { data: g2, fitness: None })
    }

    /// Uniform crossover: a fair coin per position decides which child takes
    /// which parent's value, so at every position the two children hold the
    /// two parents' values.
    pub fn uniform_crossover(&self, another: &Gene, rng: &mut rand::rngs::StdRng) -> (r: (
        Gene,
        Gene,
    ))
        requires
            self.data@.len() <= another.data@.len(),
        ensures
            r.0.data@.len() == self.data@.len(),
            r.1.data@.len() == self.data@.len(),
            forall|n: int|
                0 <= n < self.data@.len() ==> (#[trigger] r.0.data@[n] == self.data@[n]
                    && r.1.data@[n] == another.data@[n]) || (r.0.data@[n] == another.data@[n]
                    && r.1.data@[n] == self.data@[n]),
            r.0.fitness is None,
            r.1.fitness is None,
    {
        let len = self.data.len();
        let mut mask: Vec<bool> = Vec::new();
        let mut n: usize = 0;
        while n < len
            invariant
                0 <= n <= len,
                mask@.len() == n,
            decreases len - n,
        {
            let dice = coin(rng);
            mask.push(dice);
            n = n + 1;
        }
        self.uniform_crossover_masked(another, &mask)
    }

    /// Position-wise mean of the two assignments, rounded down.
    pub fn average_crossover(&self, another: &Gene) -> (r: Gene)
        requires
            self.data@.len() <= another.data@.len(),
        ensures
            r.data@.len() == self.data@.len(),
            forall|n: int|
                0 <= n < self.data@.len() ==> #[trigger] r.data@[n] as int == (
                self.data@[n] as int + another.data@[n] as int) / 2,
            r.fitness is None,
    {
        let len = self.data.len();
        let mut g: Vec<u32> = Vec::new();
        let mut n: usize = 0;
        while n < len
            invariant
                0 <= n <= len,
                len == self.data@.len(),
                len <= another.data@.len(),
                g@.len() == n,
                forall|i: int|
                    0 <= i < n ==> #[trigger] g@[i] as int == (self.data@[i] as int
                        + another.data@[i] as int) / 2,
            decreases len - n,
        {
            let v = (self.data[n] as u64 + another.data[n] as u64) / 2;
            g.push(v as u32);
            n = n + 1;
        }
        Gene { data: g, fitness: None }
    }

    /// A copy of the gene with `values[j]` written at `positions[j]` in turn,
    /// marked unevaluated.
    pub fn mutation_at(&self, positions: &Vec<usize>, values: &Vec<u32>) -> (r: Gene)
        requires
            positions@.len() == values@.len(),
            forall|j: int| 0 <= j < positions@.len() ==> #[trigger] positions@[j] < self.data@.len(),
        ensures
            r.data@ == mutated(self.data@, positions@, values@, positions@.len() as int),
            r.fitness is None,
    {
        let mut data = self.data.clone();
        let mut j: usize = 0;
        while j < positions.len()
            invariant
                0 <= j <= positions@.len(),
                positions@.len() == values@.len(),
                forall|t: int| 0 <= t < positions@.len() ==> #[trigger] positions@[t] < self.data@.len(),
                data@ == mutated(self.data@, positions@, values@, j as int),
                data@.len() == self.data@.len(),
            decreases positions@.len() - j,
        {
            data.set(positions[j], values[j]);
            j = j + 1;
        }
        Gene { data, fitness: None }
    }

    /// A copy of the gene in which `count` positions, drawn uniformly with
    /// replacement, get fresh values drawn uniformly from `[min_value, max_value)`.
    pub fn mutation(
        &self,
        count: usize,
        min_value: u32,
        max_value: u32,
        rng: &mut rand::rngs::StdRng,
    ) -> (r: Gene)
        requires
            min_value < max_value,
            count > 0 ==> self.data@.len() > 0,
        ensures
            r.data@.len() == self.data@.len(),
            differing(r.data@, self.data@, self.data@.len() as int) <= count,
            forall|i: int|
                0 <= i < self.data@.len() ==> #[trigger] r.data@[i] == self.data@[i] || (
                min_value <= r.data@[i] < max_value),
            r.fitness is None,
    {
        let len = self.data.len();
        let mut positions: Vec<usize> = Vec::new();
        let mut values: Vec<u32> = Vec::new();
        let mut n: usize = 0;
        while n < count
            invariant
                0 <= n <= count,
                count > 0 ==> len > 0,
                len == self.data@.len(),
                min_value < max_value,
                positions@.len() == n,
                values@.len() == n,
                forall|j: int| 0 <= j < n ==> #[trigger] positions@[j] < len,
                forall|j: int| 0 <= j < n ==> min_value <= #[trigger] values@[j] < max_value,
            decreases count - n,
        {
            let p = below(rng, len);
            let v = below(rng, (max_value - min_value) as usize);
            positions.push(p);
            values.push(min_value + v as u32);
            n = n + 1;
        }
        let r = self.mutation_at(&positions, &values);
        proof {
            lemma_mutation_span(self.data@, positions@, values@, count as int);
            assert forall|i: int| 0 <= i < self.data@.len() implies #[trigger] r.data@[i]
                == self.data@[i] || (min_value <= r.data@[i] < max_value) by {
                if r.data@[i] != self.data@[i] {
                    let j = choose|j: int| 0 <= j < count && r.data@[i] == values@[j];
                    assert(min_value <= values@[j] < max_value);
                }
            }
        }
        r
    }

    /// Sum over categories below `data_num` of the difference between how
    /// often the two assignments use that category.
    pub fn compare(&self, another: &Gene, data_num: usize) -> (r: u128)
        requires
            self.data@.len() <= another.data@.len(),
            data_num <= MAX_CATEGORIES,
            valid_assignment(self.data@, self.data@.len() as int, data_num as int),
            forall|i: int| 0 <= i < self.data@.len() ==> (#[trigger] another.data@[i] as int) < data_num,
        ensures
            r as int == count_gap_upto(self.data@, another.data@, self.data@.len() as int, data_num as int),
    {
        let len = self.data.len();
        let mut mine: Vec<u64> = vec![0u64; data_num];
        let mut theirs: Vec<u64> = vec![0u64; data_num];
        let mut n: usize = 0;
        while n < len
            invariant
                0 <= n <= len,
                len == self.data@.len(),
                len <= another.data@.len(),
                mine@.len() == data_num,
                theirs@.len() == data_num,
                valid_assignment(self.data@, len as int, data_num as int),
                forall|i: int| 0 <= i < len ==> (#[trigger] another.data@[i] as int) < data_num,
                forall|c: int|
                    0 <= c < data_num ==> #[trigger] mine@[c] as int == category_count(
                        self.data@,
                        c,
                        n as int,
                    ),
                forall|c: int|
                    0 <= c < data_num ==> #[trigger] theirs@[c] as int == category_count(
                        another.data@,
                        c,
                        n as int,
                    ),
            decreases len - n,
        {
            let a = self.data[n] as usize;
            let b = another.data[n] as usize;
            proof {
                lemma_category_count_bound(self.data@, a as int, n as int);
                lemma_category_count_bound(another.data@, b as int, n as int);
            }
            let va = mine[a] + 1;
            mine.set(a, va);
            let vb = theirs[b] + 1;
            theirs.set(b, vb);
            n = n + 1;
        }
        let mut diff: u128 = 0;
        let mut c: usize = 0;
        while c < data_num
            invariant
                0 <= c <= data_num,
                data_num <= MAX_CATEGORIES,
                len == self.data@.len(),
                len <= another.data@.len(),
                mine@.len() == data_num,
                theirs@.len() == data_num,
                forall|t: int|
                    0 <= t < data_num ==> #[trigger] mine@[t] as int == category_count(
                        self.data@,
                        t,
                        len as int,
                    ),
                forall|t: int|
                    0 <= t < data_num ==> #[trigger] theirs@[t] as int == category_count(
                        another.data@,
                        t,
                        len as int,
                    ),
                diff as int == count_gap_upto(self.data@, another.data@, len as int, c as int),
                diff <= c as u128 * 0x1_0000_0000_0000_0000u128,
            decreases data_num - c,
        {
            let x = mine[c];
            let y = theirs[c];
            let g: u64 = if x >= y {
                x - y
            } else {
                y - x
            };
            diff = diff + g as u128;
            c = c + 1;
        }
        diff
    }
}

} // verus!
