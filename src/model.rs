//! The genetic search: configuration, population, selection, mutation and
//! the generation loop, with a tracker of per-generation progress.
use vstd::prelude::*;
use crate::gene::{
    Gene, MAX_CATEGORIES, SHARE_TOLERANCE, distance, dataset_ok, deviation, differing, lemma_differing_self,
    lemma_fitness_zero_iff_exact, lemma_weight_sum_mono, sum_of, total, valid_assignment,
    weight_sum,
};
use crate::random::{below, seeded_rng};
pub use crate::gene::PPM;

verus! {

broadcast use vstd::seq_lib::group_to_multiset_ensures;

/// Largest population a configuration may ask for.
pub const MAX_POPULATION: usize = 100_000;

/// Upper bound on any gene's fitness under a valid dataset.
pub open spec fn fitness_limit() -> int {
    MAX_CATEGORIES * 0x1_0000_0000_0000_0000
}

/// Why a run cannot start.
#[derive(Debug, PartialEq, Eq, Structural, Clone, Copy)]
pub enum GaError {
    /// A token of a dataset is not a number.
    DatasetFormat,
    /// A dataset names no category, more than `MAX_CATEGORIES`, or no property.
    DatasetLengthMismatch,
    /// A parameter or a weight lies outside its range.
    InvalidConfiguration,
}


/// Fitness carried by an evaluated gene.
pub open spec fn score(g: Gene) -> int {
    match g.fitness {
        Some(f) => f as int,
        None => 0,
    }
}

pub open spec fn all_evaluated(genes: Seq<Gene>) -> bool {
    forall|i: int| 0 <= i < genes.len() ==> (#[trigger] genes[i]).fitness is Some
}

/// Ascending by fitness: the best gene comes first.
pub open spec fn ranked(genes: Seq<Gene>) -> bool {
    forall|a: int, b: int| 0 <= a < b < genes.len() ==> score(#[trigger] genes[a]) <= score(#[trigger] genes[b])
}

/// Every gene assigns `n` properties to categories below `k`.
pub open spec fn population_ok(genes: Seq<Gene>, n: int, k: int) -> bool {
    forall|i: int| 0 <= i < genes.len() ==> valid_assignment((#[trigger] genes[i]).data@, n, k)
}

/// The population with every gene's fitness set to its deviation.
pub open spec fn evaluated(genes: Seq<Gene>, targets: Seq<u32>, w: Seq<u32>) -> Seq<Gene> {
    Seq::new(
        genes.len(),
        |i: int| Gene { data: genes[i].data, fitness: Some(deviation(genes[i].data@, targets, w) as u128) },
    )
}

/// A gene whose fitness is its deviation, with its assignment valid.
pub open spec fn scored_ok(g: Gene, targets: Seq<u32>, w: Seq<u32>) -> bool {
    &&& valid_assignment(g.data@, w.len() as int, targets.len() as int)
    &&& g.fitness == Some(deviation(g.data@, targets, w) as u128)
    &&& 0 <= deviation(g.data@, targets, w) <= fitness_limit()
}

/// Sum of the fitnesses of the first `n` genes.
pub open spec fn score_sum(genes: Seq<Gene>, n: int) -> int
    decreases n,
{
    if n <= 0 {
        0
    } else {
        score_sum(genes, n - 1) + score(genes[n - 1])
    }
}

/// Sum over the first `n` genes `x` of the fitness difference to gene `y`.
pub open spec fn row_spread(genes: Seq<Gene>, y: int, n: int) -> int
    decreases n,
{
    if n <= 0 {
        0
    } else {
        row_spread(genes, y, n - 1) + distance(score(genes[y]), score(genes[n - 1]))
    }
}

/// Sum over the first `m` genes `y` of `row_spread(y)`: the diversity of a
/// population, before division by the squared population size.
pub open spec fn spread(genes: Seq<Gene>, m: int) -> int
    decreases m,
{
    if m <= 0 {
        0
    } else {
        spread(genes, m - 1) + row_spread(genes, m - 1, genes.len() as int)
    }
}

/// Gene `d` takes each value from parent `a` or parent `b` at that position.
pub open spec fn child_of(d: Seq<u32>, a: Seq<u32>, b: Seq<u32>) -> bool {
    &&& d.len() == a.len()
    &&& forall|n: int| 0 <= n < d.len() ==> #[trigger] d[n] == a[n] || d[n] == b[n]
}

/// Gene `d` is a child of two genes among the first `pool` of `genes`.
pub open spec fn bred_from(d: Seq<u32>, genes: Seq<Gene>, pool: int) -> bool {
    exists|a: int, b: int|
        0 <= a < pool && 0 <= b < pool && #[trigger] child_of(d, genes[a].data@, genes[b].data@)
}

/// `c1` and `c2` are the two children of one uniform crossover of `a` and
/// `b`: at every position they hold the two parents' values, one each.
pub open spec fn twins_of(c1: Seq<u32>, c2: Seq<u32>, a: Seq<u32>, b: Seq<u32>) -> bool {
    &&& c1.len() == a.len()
    &&& c2.len() == a.len()
    &&& forall|n: int|
        0 <= n < c1.len() ==> (#[trigger] c1[n] == a[n] && c2[n] == b[n]) || (c1[n] == b[n] && c2[n] == a[n])
}

/// Genes `e + 2k` and `e + 2k + 1` of `next` are the two children of one
/// crossover between parents among the first `pool` of `genes`.
pub open spec fn pair_at(next: Seq<Gene>, genes: Seq<Gene>, e: int, pool: int, k: int) -> bool {
    exists|a: int, b: int|
        0 <= a < pool && 0 <= b < pool && #[trigger] twins_of(
            next[e + 2 * k].data@,
            next[e + 2 * k + 1].data@,
            genes[a].data@,
            genes[b].data@,
        )
}

/// Progress of a run: the best gene seen and one record per generation.
#[derive(Clone)]
pub struct GAModelTracker {
    /// Seconds since the Unix epoch when the tracker was made.
    pub local_datetime: i64,
    /// Best gene seen so far; its fitness is `None` before the first generation.
    pub best_gene: Gene,
    pub total_generation: usize,
    /// Fitness of the best gene of each generation.
    pub best_fitness_changes: Vec<u128>,
    /// Sum of the population's fitnesses in each generation (divide by the
    /// population size for the average).
    pub average_fitness_changes: Vec<u128>,
    /// Sum over all ordered pairs of genes of their fitness difference in each
    /// generation (divide by the squared population size for the average).
    pub average_diff_changes: Vec<u128>,
}

impl GAModelTracker {
    /// Histories of equal length, one entry per generation.
    pub open spec fn wf(&self) -> bool {
        &&& self.best_fitness_changes@.len() == self.total_generation
        &&& self.average_fitness_changes@.len() == self.total_generation
        &&& self.average_diff_changes@.len() == self.total_generation
    }

    pub fn reset(&mut self)
        ensures
            final(self).total_generation == 0,
            final(self).best_gene.data@.len() == 0,
            final(self).best_gene.fitness is None,
            final(self).best_fitness_changes@.len() == 0,
            final(self).average_fitness_changes@.len() == 0,
            final(self).average_diff_changes@.len() == 0,
            final(self).local_datetime == old(self).local_datetime,
            final(self).wf(),
    {
        self.total_generation = 0;
        self.best_gene = Gene { data: Vec::new(), fitness: None };
        self.best_fitness_changes.clear();
        self.average_fitness_changes.clear();
        self.average_diff_changes.clear();
    }

    /// Records one generation.
    pub fn append(&mut self, best_fitness: u128, average_fitness: u128, average_diff: u128)
        requires
            old(self).wf(),
            old(self).total_generation < usize::MAX,
        ensures
            final(self).wf(),
            final(self).total_generation == old(self).total_generation + 1,
            final(self).best_fitness_changes@ == old(self).best_fitness_changes@.push(best_fitness),
            final(self).average_fitness_changes@ == old(self).average_fitness_changes@.push(
                average_fitness,
            ),
            final(self).average_diff_changes@ == old(self).average_diff_changes@.push(average_diff),
            final(self).best_gene == old(self).best_gene,
            final(self).local_datetime == old(self).local_datetime,
    {
        self.total_generation = self.total_generation + 1;
        self.best_fitness_changes.push(best_fitness);
        self.average_fitness_changes.push(average_fitness);
        self.average_diff_changes.push(average_diff);
    }
}

impl GAModelTracker {
    /// An empty tracker for a run started at `local_datetime` (seconds since
    /// the Unix epoch, read by the caller).
    pub fn new(local_datetime: i64) -> (r: GAModelTracker)
        ensures
            r.local_datetime == local_datetime,
            r.total_generation == 0,
            r.best_gene.data@.len() == 0,
            r.best_gene.fitness is None,
            r.wf(),
    {
        GAModelTracker {
            local_datetime,
            best_gene: Gene { data: Vec::new(), fitness: None },
            total_generation: 0,
            best_fitness_changes: Vec::new(),
            average_fitness_changes: Vec::new(),
            average_diff_changes: Vec::new(),
        }
    }
}

/// Swaps two genes of the population in place.
fn swap_genes(v: &mut Vec<Gene>, i: usize, j: usize)
    requires
        i < old(v)@.len(),
        j < old(v)@.len(),
    ensures
        final(v)@ == old(v)@.update(i as int, old(v)@[j as int]).update(j as int, old(v)@[i as int]),
        final(v)@.to_multiset() == old(v)@.to_multiset(),
{
    let ghost s = v@;
    if i != j {
        let mut hole = Gene { data: Vec::new(), fitness: None };
        v.set_and_swap(i, &mut hole);
        v.set_and_swap(j, &mut hole);
        v.set_and_swap(i, &mut hole);
        proof {
            let s1 = s.update(i as int, s[j as int]);
            assert(v@ =~= s1.update(j as int, s[i as int]));
            assert(s1.to_multiset() =~= s.to_multiset().insert(s[j as int]).remove(s[i as int]));
            assert(v@.to_multiset() =~= s1.to_multiset().insert(s[i as int]).remove(s1[j as int]));
            assert(v@.to_multiset() =~= s.to_multiset());
        }
    } else {
        assert(s.update(i as int, s[j as int]).update(j as int, s[i as int]) =~= s);
    }
}

/// Orders evaluated genes by ascending fitness, keeping the same genes.
pub fn sort_by_fitness(genes: &mut Vec<Gene>)
    requires
        all_evaluated(old(genes)@),
    ensures
        final(genes)@.to_multiset() == old(genes)@.to_multiset(),
        final(genes)@.len() == old(genes)@.len(),
        all_evaluated(final(genes)@),
        ranked(final(genes)@),
{
    let n = genes.len();
    let mut i: usize = 0;
    while i < n
        invariant
            0 <= i <= n,
            n == genes@.len(),
            genes@.to_multiset() == old(genes)@.to_multiset(),
            all_evaluated(genes@),
            forall|a: int, b: int| 0 <= a < b < i ==> score(#[trigger] genes@[a]) <= score(#[trigger] genes@[b]),
            forall|a: int, b: int| 0 <= a < i <= b < n ==> score(#[trigger] genes@[a]) <= score(#[trigger] genes@[b]),
        decreases n - i,
    {
        let mut m: usize = i;
        let mut j: usize = i + 1;
        while j < n
            invariant
                i <= m < n,
                i < j <= n,
                n == genes@.len(),
                all_evaluated(genes@),
                forall|b: int| i <= b < j ==> score(genes@[m as int]) <= score(#[trigger] genes@[b]),
            decreases n - j,
        {
            let fj = genes[j].fitness.unwrap();
            let fm = genes[m].fitness.unwrap();
            if fj < fm {
                m = j;
            }
            j = j + 1;
        }
        swap_genes(genes, i, m);
        i = i + 1;
    }
    proof {
        assert(ranked(genes@));
    }
}

/// The state of a search: its population, dataset, parameters and progress.
pub struct GAModel {
    pub genes: Vec<Gene>,
    /// Population size.
    pub gene_len: usize,
    /// Target share of each category, in parts per million; the shares sum
    /// to one within `SHARE_TOLERANCE`.
    pub divide: Vec<u32>,
    /// Weight of each property.
    pub properties: Vec<u32>,
    /// Share of the population mutated per generation, in parts per million.
    pub mutation_probability: u32,
    /// Positions rewritten in each mutated gene.
    pub mutation_gene_data_len: usize,
    /// Share of the population kept unchanged as elites, in parts per million.
    pub elite_conservation_probability: u32,
    /// Share of the population eligible as parents, in parts per million.
    pub total_conservation_probability: u32,
    pub tracker: GAModelTracker,
    pub rng: rand::rngs::StdRng,
}

/// `population * fraction / PPM`, rounded down.
pub open spec fn portion(population: int, fraction: int) -> int {
    population * fraction / PPM as int
}

/// Elite count: the elite share of the population rounded down, then made
/// even (an odd count loses one) so that the rest pairs up in crossover.
pub open spec fn even_down(e: int) -> int {
    if e % 2 == 1 {
        e - 1
    } else {
        e
    }
}

fn portion_of(population: usize, fraction: u32) -> (r: usize)
    requires
        population <= MAX_POPULATION,
        fraction <= PPM,
    ensures
        r as int == portion(population as int, fraction as int),
        r <= population,
{
    assert(population as int * fraction as int <= MAX_POPULATION as int * PPM as int) by (nonlinear_arith)
        requires
            population <= MAX_POPULATION,
            fraction <= PPM,
    ;
    let prod: u64 = population as u64 * fraction as u64;
    assert(prod <= population as u64 * PPM as u64) by (nonlinear_arith)
        requires
            prod == population as u64 * fraction as u64,
            fraction <= PPM,
    ;
    assert(prod / (PPM as u64) <= population as u64) by (nonlinear_arith)
        requires
            prod <= population as u64 * PPM as u64,
    ;
    (prod / PPM as u64) as usize
}

impl GAModel {
    pub open spec fn spec_elite_count(&self) -> int {
        even_down(portion(self.gene_len as int, self.elite_conservation_probability as int))
    }

    pub open spec fn spec_pool_size(&self) -> int {
        portion(self.gene_len as int, self.total_conservation_probability as int)
    }

    pub open spec fn spec_mutation_count(&self) -> int {
        portion(self.gene_len as int, self.mutation_probability as int)
    }

    /// Dataset accepted: categories in `1..=MAX_CATEGORIES` and at least one property.
    pub open spec fn lengths_ok(&self) -> bool {
        1 <= self.divide@.len() <= MAX_CATEGORIES && 1 <= self.properties@.len()
    }

    /// Parameters and dataset with which a run may start.
    pub open spec fn config_ok(&self) -> bool {
        &&& dataset_ok(self.divide@, self.properties@)
        &&& 1 <= self.gene_len <= MAX_POPULATION
        &&& self.mutation_probability <= PPM
        &&& self.elite_conservation_probability <= PPM
        &&& self.total_conservation_probability <= PPM
        &&& self.spec_pool_size() >= 1
        &&& self.spec_mutation_count() <= self.gene_len - self.spec_elite_count()
    }

    /// A population of the configured size, each gene a valid assignment.
    pub open spec fn population_wf(&self) -> bool {
        &&& self.genes@.len() == self.gene_len
        &&& population_ok(self.genes@, self.properties@.len() as int, self.divide@.len() as int)
    }

    pub fn elite_count(&self) -> (r: usize)
        requires
            self.gene_len <= MAX_POPULATION,
            self.elite_conservation_probability <= PPM,
        ensures
            r as int == self.spec_elite_count(),
            r <= self.gene_len,
            r % 2 == 0,
    {
        let e = portion_of(self.gene_len, self.elite_conservation_probability);
        if e % 2 != 0 {
            e - 1
        } else {
            e
        }
    }

    pub fn pool_size(&self) -> (r: usize)
        requires
            self.gene_len <= MAX_POPULATION,
            self.total_conservation_probability <= PPM,
        ensures
            r as int == self.spec_pool_size(),
            r <= self.gene_len,
    {
        portion_of(self.gene_len, self.total_conservation_probability)
    }

    pub fn mutation_count(&self) -> (r: usize)
        requires
            self.gene_len <= MAX_POPULATION,
            self.mutation_probability <= PPM,
        ensures
            r as int == self.spec_mutation_count(),
            r <= self.gene_len,
    {
        portion_of(self.gene_len, self.mutation_probability)
    }

    /// Checks the dataset and parameters before a run: `Ok` exactly when
    /// `config_ok`; a dataset of the wrong size gives `DatasetLengthMismatch`,
    /// anything else out of range `InvalidConfiguration`.
    pub fn validate(&self) -> (r: Result<(), GaError>)
        ensures
            r is Ok <==> self.config_ok(),
            r == Err::<(), GaError>(GaError::DatasetLengthMismatch) <==> !self.lengths_ok(),
            r == Err::<(), GaError>(GaError::InvalidConfiguration) <==> (self.lengths_ok()
                && !self.config_ok()),
    {
        if self.divide.len() < 1 || self.divide.len() > MAX_CATEGORIES || self.properties.len()
            < 1 {
            return Err(GaError::DatasetLengthMismatch);
        }
        if !weights_fit(&self.divide) || !weights_fit(&self.properties) {
            return Err(GaError::InvalidConfiguration);
        }
        let tsum = sum_of(&self.divide);
        if tsum < (PPM - SHARE_TOLERANCE) as u64 || tsum > (PPM + SHARE_TOLERANCE) as u64 {
            return Err(GaError::InvalidConfiguration);
        }
        if !all_positive(&self.properties) {
            return Err(GaError::InvalidConfiguration);
        }
        if self.gene_len < 1 || self.gene_len > MAX_POPULATION || self.mutation_probability > PPM
            || self.elite_conservation_probability > PPM || self.total_conservation_probability
            > PPM {
            return Err(GaError::InvalidConfiguration);
        }
        if self.pool_size() < 1 {
            return Err(GaError::InvalidConfiguration);
        }
        if self.mutation_count() > self.gene_len - self.elite_count() {
            return Err(GaError::InvalidConfiguration);
        }
        Ok(())
    }
}

/// Whether the entries of `w` sum to at most `u32::MAX`.
fn weights_fit(w: &Vec<u32>) -> (r: bool)
    ensures
        r <==> total(w@) <= u32::MAX,
{
    let mut s: u64 = 0;
    let mut i: usize = 0;
    while i < w.len()
        invariant
            0 <= i <= w.len(),
            s as int == weight_sum(w@, i as int),
            s <= u32::MAX,
        decreases w.len() - i,
    {
        s = s + w[i] as u64;
        if s > u32::MAX as u64 {
            proof {
                lemma_weight_sum_mono(w@, i as int + 1, w.len() as int);
            }
            return false;
        }
        i = i + 1;
    }
    true
}

fn all_positive(w: &Vec<u32>) -> (r: bool)
    ensures
        r <==> forall|i: int| 0 <= i < w@.len() ==> w@[i] > 0,
{
    let mut i: usize = 0;
    while i < w.len()
        invariant
            0 <= i <= w.len(),
            forall|t: int| 0 <= t < i ==> w@[t] > 0,
        decreases w.len() - i,
    {
        if w[i] == 0 {
            return false;
        }
        i = i + 1;
    }
    true
}

impl GAModel {
    /// Dataset and parameters of `a` and `b` agree.
    pub open spec fn same_setup(a: &GAModel, b: &GAModel) -> bool {
        &&& a.gene_len == b.gene_len
        &&& a.divide@ == b.divide@
        &&& a.properties@ == b.properties@
        &&& a.mutation_probability == b.mutation_probability
        &&& a.mutation_gene_data_len == b.mutation_gene_data_len
        &&& a.elite_conservation_probability == b.elite_conservation_probability
        &&& a.total_conservation_probability == b.total_conservation_probability
    }

    /// The tracker's best gene, once there is one, is scored and valid.
    pub open spec fn best_ok(&self) -> bool {
        self.tracker.best_gene.fitness is Some ==> scored_ok(
            self.tracker.best_gene,
            self.divide@,
            self.properties@,
        )
    }

    /// A model with the given dataset and parameters, an empty population
    /// and a generator seeded with `seed`.
    pub fn with_seed(
        divide: Vec<u32>,
        properties: Vec<u32>,
        gene_len: usize,
        mutation_probability: u32,
        mutation_gene_data_len: usize,
        elite_conservation_probability: u32,
        total_conservation_probability: u32,
        seed: u64,
        local_datetime: i64,
    ) -> (r: GAModel)
        ensures
            r.divide@ == divide@,
            r.properties@ == properties@,
            r.gene_len == gene_len,
            r.mutation_probability == mutation_probability,
            r.mutation_gene_data_len == mutation_gene_data_len,
            r.elite_conservation_probability == elite_conservation_probability,
            r.total_conservation_probability == total_conservation_probability,
            r.genes@.len() == 0,
            r.tracker.wf(),
            r.tracker.total_generation == 0,
            r.tracker.best_gene.fitness is None,
            r.tracker.local_datetime == local_datetime,
    {
        GAModel {
            genes: Vec::new(),
            gene_len,
            divide,
            properties,
            mutation_probability,
            mutation_gene_data_len,
            elite_conservation_probability,
            total_conservation_probability,
            tracker: GAModelTracker::new(local_datetime),
            rng: seeded_rng(seed),
        }
    }

    /// Discards the population and draws `gene_len` new genes, each position
    /// uniform over the categories, all unevaluated.
    pub fn shake(&mut self)
        requires
            1 <= old(self).divide@.len() <= MAX_CATEGORIES,
        ensures
            GAModel::same_setup(final(self), old(self)),
            final(self).tracker == old(self).tracker,
            final(self).population_wf(),
            forall|i: int| 0 <= i < final(self).genes@.len() ==> (#[trigger] final(self).genes@[i]).fitness is None,
    {
        let max_value = self.divide.len() as u32;
        let gene_data_len = self.properties.len();
        self.genes.clear();
        let mut n: usize = 0;
        while n < self.gene_len
            invariant
                0 <= n <= self.gene_len,
                GAModel::same_setup(self, old(self)),
                self.tracker == old(self).tracker,
                max_value as int == self.divide@.len(),
                gene_data_len == self.properties@.len(),
                1 <= self.divide@.len() <= MAX_CATEGORIES,
                self.genes@.len() == n,
                population_ok(self.genes@, gene_data_len as int, max_value as int),
                forall|i: int| 0 <= i < n ==> (#[trigger] self.genes@[i]).fitness is None,
            decreases self.gene_len - n,
        {
            let mut g = Gene { data: Vec::new(), fitness: None };
            g.init(gene_data_len, 0, max_value, &mut self.rng);
            self.genes.push(g);
            n = n + 1;
        }
    }

    /// Scores every gene in place, keeping the order.
    fn evaluate_all(&mut self)
        requires
            dataset_ok(old(self).divide@, old(self).properties@),
            old(self).population_wf(),
        ensures
            GAModel::same_setup(final(self), old(self)),
            final(self).tracker == old(self).tracker,
            final(self).genes@ == evaluated(old(self).genes@, old(self).divide@, old(self).properties@),
            forall|i: int| 0 <= i < final(self).genes@.len() ==> scored_ok(#[trigger] final(self).genes@[i], final(self).divide@, final(self).properties@),
    {
        let ghost start = self.genes@;
        let n = self.genes.len();
        let mut i: usize = 0;
        while i < n
            invariant
                0 <= i <= n,
                n == self.genes@.len(),
                n == start.len(),
                GAModel::same_setup(self, old(self)),
                self.tracker == old(self).tracker,
                start == old(self).genes@,
                dataset_ok(self.divide@, self.properties@),
                population_ok(start, self.properties@.len() as int, self.divide@.len() as int),
                forall|t: int| 0 <= t < i ==> #[trigger] self.genes@[t] == evaluated(start, self.divide@, self.properties@)[t],
                forall|t: int| 0 <= t < i ==> scored_ok(#[trigger] self.genes@[t], self.divide@, self.properties@),
                forall|t: int| i <= t < n ==> #[trigger] self.genes@[t] == start[t],
            decreases n - i,
        {
            let mut g = Gene { data: Vec::new(), fitness: None };
            self.genes.set_and_swap(i, &mut g);
            assert(valid_assignment(start[i as int].data@, self.properties@.len() as int, self.divide@.len() as int));
            g.set_fitness(&self.divide, &self.properties);
            proof {
                lemma_fitness_zero_iff_exact(g.data@, self.divide@, self.properties@);
            }
            self.genes.set_and_swap(i, &mut g);
            assert(scored_ok(self.genes@[i as int], self.divide@, self.properties@));
            i = i + 1;
        }
        assert(self.genes@ =~= evaluated(start, self.divide@, self.properties@));
    }

    /// Scores every gene and ranks the population by ascending fitness.
    pub fn set_fitnesses(&mut self)
        requires
            dataset_ok(old(self).divide@, old(self).properties@),
            old(self).population_wf(),
        ensures
            GAModel::same_setup(final(self), old(self)),
            final(self).tracker == old(self).tracker,
            final(self).genes@.to_multiset() == evaluated(old(self).genes@, old(self).divide@, old(self).properties@).to_multiset(),
            final(self).population_wf(),
            ranked(final(self).genes@),
            forall|i: int| 0 <= i < final(self).genes@.len() ==> scored_ok(#[trigger] final(self).genes@[i], final(self).divide@, final(self).properties@),
    {
        self.evaluate_all();
        self.rank();
    }

    /// Ranks scored genes by ascending fitness.
    fn rank(&mut self)
        requires
            old(self).genes@.len() == old(self).gene_len,
            forall|i: int| 0 <= i < old(self).genes@.len() ==> scored_ok(#[trigger] old(self).genes@[i], old(self).divide@, old(self).properties@),
        ensures
            GAModel::same_setup(final(self), old(self)),
            final(self).tracker == old(self).tracker,
            final(self).genes@.to_multiset() == old(self).genes@.to_multiset(),
            final(self).population_wf(),
            ranked(final(self).genes@),
            forall|i: int| 0 <= i < final(self).genes@.len() ==> scored_ok(#[trigger] final(self).genes@[i], final(self).divide@, final(self).properties@),
    {
        let ghost ev = self.genes@;
        proof {
            assert(all_evaluated(self.genes@));
        }
        sort_by_fitness(&mut self.genes);
        proof {
            assert forall|i: int| 0 <= i < self.genes@.len() implies scored_ok(#[trigger] self.genes@[i], self.divide@, self.properties@) by {
                assert(self.genes@.contains(self.genes@[i]));
                assert(ev.to_multiset().count(self.genes@[i]) > 0);
                assert(ev.contains(self.genes@[i]));
            }
        }
    }

    /// Next generation: the `elite_count` best genes carried over unchanged,
    /// then children of uniform crossover between parents drawn uniformly from
    /// the first `pool_size` genes, up to `gene_len` genes in all.
    pub fn selection(&mut self)
        requires
            old(self).config_ok(),
            old(self).population_wf(),
        ensures
            GAModel::same_setup(final(self), old(self)),
            final(self).tracker == old(self).tracker,
            final(self).population_wf(),
            0 <= old(self).spec_elite_count() <= old(self).gene_len,
            forall|i: int| 0 <= i < old(self).spec_elite_count() ==> (#[trigger] final(self).genes@[i]).data@ == old(self).genes@[i].data@ && final(self).genes@[i].fitness == old(self).genes@[i].fitness,
            forall|i: int| old(self).spec_elite_count() <= i < old(self).gene_len ==> (#[trigger] final(self).genes@[i]).fitness is None && bred_from(final(self).genes@[i].data@, old(self).genes@, old(self).spec_pool_size()),
            forall|k: int| 0 <= k && old(self).spec_elite_count() + 2 * k + 1 < old(self).gene_len ==> #[trigger] pair_at(final(self).genes@, old(self).genes@, old(self).spec_elite_count(), old(self).spec_pool_size(), k),
    {
        let pop = self.gene_len;
        let elite_len = self.elite_count();
        let total_len = self.pool_size();
        let ghost n_props = self.properties@.len() as int;
        let ghost k = self.divide@.len() as int;
        let mut child: Vec<Gene> = Vec::new();
        let mut n: usize = 0;
        while n < elite_len
            invariant
                0 <= n <= elite_len,
                elite_len <= pop,
                pop == self.genes@.len(),
                self.population_wf(),
                n_props == self.properties@.len(),
                k == self.divide@.len(),
                child@.len() == n,
                population_ok(child@, n_props, k),
                forall|i: int| 0 <= i < n ==> (#[trigger] child@[i]).data@ == self.genes@[i].data@ && child@[i].fitness == self.genes@[i].fitness,
            decreases elite_len - n,
        {
            let g = self.genes[n].duplicate();
            child.push(g);
            n = n + 1;
        }
        while child.len() < pop
            invariant
                elite_len <= child@.len() <= pop + 1,
                elite_len as int == self.spec_elite_count(),
                total_len as int == self.spec_pool_size(),
                1 <= total_len <= pop,
                pop == self.genes@.len(),
                pop == self.gene_len,
                self.genes@ == old(self).genes@,
                GAModel::same_setup(self, old(self)),
                self.tracker == old(self).tracker,
                self.population_wf(),
                n_props == self.properties@.len(),
                k == self.divide@.len(),
                population_ok(child@, n_props, k),
                forall|i: int| 0 <= i < elite_len ==> (#[trigger] child@[i]).data@ == self.genes@[i].data@ && child@[i].fitness == self.genes@[i].fitness,
                forall|i: int| elite_len <= i < child@.len() ==> (#[trigger] child@[i]).fitness is None && bred_from(child@[i].data@, self.genes@, total_len as int),
                (child@.len() - elite_len) % 2 == 0,
                forall|k: int| 0 <= k && elite_len + 2 * k + 1 < child@.len() ==> #[trigger] pair_at(child@, self.genes@, elite_len as int, total_len as int, k),
            decreases pop + 2 - child@.len(),
        {
            let n1 = below(&mut self.rng, total_len);
            let n2 = below(&mut self.rng, total_len);
            let result = self.genes[n1].uniform_crossover(&self.genes[n2], &mut self.rng);
            let ghost a = self.genes@[n1 as int].data@;
            let ghost b = self.genes@[n2 as int].data@;
            proof {
                assert(child_of(result.0.data@, a, b));
                assert forall|t: int| 0 <= t < result.1.data@.len() implies #[trigger] result.1.data@[t] == a[t] || result.1.data@[t] == b[t] by {
                    assert(result.0.data@[t] == a[t] || result.0.data@[t] == b[t]);
                }
                assert(child_of(result.1.data@, a, b));
                assert(valid_assignment(a, n_props, k));
                assert(valid_assignment(b, n_props, k));
                assert forall|t: int| 0 <= t < result.0.data@.len() implies (#[trigger] result.0.data@[t] as int) < k by {
                    assert(result.0.data@[t] == a[t] || result.0.data@[t] == b[t]);
                }
                assert forall|t: int| 0 <= t < result.1.data@.len() implies (#[trigger] result.1.data@[t] as int) < k by {
                    assert(result.1.data@[t] == a[t] || result.1.data@[t] == b[t]);
                }
            }
            let ghost before = child@;
            let ghost l = child@.len() as int;
            child.push(result.0);
            child.push(result.1);
            proof {
                assert(twins_of(child@[l].data@, child@[l + 1].data@, a, b));
                assert forall|k: int| 0 <= k && elite_len + 2 * k + 1 < child@.len() implies #[trigger] pair_at(child@, self.genes@, elite_len as int, total_len as int, k) by {
                    if elite_len + 2 * k + 1 < l {
                        assert(pair_at(before, self.genes@, elite_len as int, total_len as int, k));
                        assert(child@[elite_len + 2 * k] == before[elite_len + 2 * k]);
                        assert(child@[elite_len + 2 * k + 1] == before[elite_len + 2 * k + 1]);
                    } else {
                        assert(elite_len + 2 * k == l);
                        assert(twins_of(child@[elite_len + 2 * k].data@, child@[elite_len + 2 * k + 1].data@, self.genes@[n1 as int].data@, self.genes@[n2 as int].data@));
                    }
                }
            }
        }
        let ghost full = child@;
        child.truncate(pop);
        proof {
            assert forall|k: int| 0 <= k && elite_len + 2 * k + 1 < pop implies #[trigger] pair_at(child@, self.genes@, elite_len as int, total_len as int, k) by {
                assert(pair_at(full, self.genes@, elite_len as int, total_len as int, k));
                assert(child@[elite_len + 2 * k] == full[elite_len + 2 * k]);
                assert(child@[elite_len + 2 * k + 1] == full[elite_len + 2 * k + 1]);
            }
        }
        self.genes = child;
    }

    /// Replaces `mutation_count` distinct genes, drawn uniformly from the
    /// non-elite indices `[elite_count, gene_len)`, each by a copy with
    /// `mutation_gene_data_len` positions redrawn. Returns the indices drawn,
    /// in order.
    pub fn mutation(&mut self) -> (r: Vec<usize>)
        requires
            old(self).config_ok(),
            old(self).population_wf(),
        ensures
            GAModel::same_setup(final(self), old(self)),
            final(self).tracker == old(self).tracker,
            final(self).population_wf(),
            r@.len() == old(self).spec_mutation_count(),
            r@.no_duplicates(),
            forall|j: int| 0 <= j < r@.len() ==> old(self).spec_elite_count() <= #[trigger] r@[j] < old(self).gene_len,
            forall|i: int| 0 <= i < old(self).gene_len && !r@.contains(i as usize) ==> #[trigger] final(self).genes@[i] == old(self).genes@[i],
            forall|i: int| 0 <= i < old(self).gene_len && r@.contains(i as usize) ==> (#[trigger] final(self).genes@[i]).fitness is None,
            forall|i: int| 0 <= i < old(self).gene_len ==> differing(
                (#[trigger] final(self).genes@[i]).data@,
                old(self).genes@[i].data@,
                old(self).properties@.len() as int,
            ) <= old(self).mutation_gene_data_len,
    {
        let pop = self.gene_len;
        let max_value = self.divide.len() as u32;
        let elite_len = self.elite_count();
        let mutation_len = self.mutation_count();
        let span = self.mutation_gene_data_len;
        let ghost np = self.properties@.len() as int;
        let mut cand: Vec<usize> = Vec::new();
        let mut c: usize = elite_len;
        while c < pop
            invariant
                elite_len <= c <= pop,
                cand@.len() == c - elite_len,
                forall|j: int| 0 <= j < cand@.len() ==> #[trigger] cand@[j] == elite_len + j,
            decreases pop - c,
        {
            cand.push(c);
            c = c + 1;
        }
        proof {
            assert forall|i: int| 0 <= i < pop implies differing(
                (#[trigger] self.genes@[i]).data@,
                old(self).genes@[i].data@,
                np,
            ) <= span by {
                assert(valid_assignment(self.genes@[i].data@, np, self.divide@.len() as int));
                lemma_differing_self(self.genes@[i].data@, np);
            }
        }
        let n = cand.len();
        let mut t: usize = 0;
        while t < mutation_len
            invariant
                0 <= t <= mutation_len,
                mutation_len as int == old(self).spec_mutation_count(),
                elite_len as int == old(self).spec_elite_count(),
                mutation_len <= n,
                n == pop - elite_len,
                cand@.len() == n,
                pop == self.gene_len,
                pop == old(self).genes@.len(),
                max_value as int == self.divide@.len(),
                span == self.mutation_gene_data_len,
                np == self.properties@.len(),
                GAModel::same_setup(self, old(self)),
                self.tracker == old(self).tracker,
                self.config_ok(),
                self.population_wf(),
                forall|j: int| 0 <= j < n ==> elite_len <= #[trigger] cand@[j] < pop,
                forall|a: int, b: int| 0 <= a < b < n ==> #[trigger] cand@[a] != #[trigger] cand@[b],
                forall|i: int| 0 <= i < pop && !cand@.take(t as int).contains(i as usize) ==> #[trigger] self.genes@[i] == old(self).genes@[i],
                forall|i: int| 0 <= i < pop && cand@.take(t as int).contains(i as usize) ==> (#[trigger] self.genes@[i]).fitness is None,
                forall|i: int| 0 <= i < pop ==> differing(
                    (#[trigger] self.genes@[i]).data@,
                    old(self).genes@[i].data@,
                    np,
                ) <= span,
            decreases mutation_len - t,
        {
            let j = t + below(&mut self.rng, n - t);
            let ghost pre = cand@;
            let a = cand[t];
            let b = cand[j];
            cand.set(t, b);
            cand.set(j, a);
            proof {
                assert forall|x: int, y: int| 0 <= x < y < n implies #[trigger] cand@[x] != #[trigger] cand@[y] by {
                    let px = if x == t { j as int } else if x == j { t as int } else { x };
                    let py = if y == t { j as int } else if y == j { t as int } else { y };
                    assert(cand@[x] == pre[px]);
                    assert(cand@[y] == pre[py]);
                    if px < py {
                        assert(pre[px] != pre[py]);
                    } else {
                        assert(pre[py] != pre[px]);
                    }
                }
                assert(cand@.take(t as int) =~= pre.take(t as int));
            }
            let index = cand[t];
            proof {
                assert(!cand@.take(t as int).contains(index)) by {
                    if cand@.take(t as int).contains(index) {
                        let q = choose|q: int| 0 <= q < t && cand@.take(t as int)[q] == index;
                        assert(cand@[q] != cand@[t as int]);
                    }
                }
            }
            assert(self.genes@[index as int] == old(self).genes@[index as int]);
            assert(valid_assignment(self.genes@[index as int].data@, np, self.divide@.len() as int));
            let g = self.genes[index].mutation(span, 0, max_value, &mut self.rng);
            let ghost before = self.genes@;
            self.genes.set(index, g);
            proof {
                let tk = cand@.take(t as int + 1);
                assert(tk =~= cand@.take(t as int).push(index));
                assert forall|i: int| 0 <= i < pop && !tk.contains(i as usize) implies #[trigger] self.genes@[i] == old(self).genes@[i] by {
                    assert(tk[t as int] == index);
                    assert(i != index);
                    assert(!cand@.take(t as int).contains(i as usize)) by {
                        if cand@.take(t as int).contains(i as usize) {
                            let q = choose|q: int| 0 <= q < t && cand@.take(t as int)[q] == i as usize;
                            assert(tk[q] == i as usize);
                        }
                    }
                }
                assert forall|i: int| 0 <= i < pop && tk.contains(i as usize) implies (#[trigger] self.genes@[i]).fitness is None by {
                    if i != index {
                        let q = choose|q: int| 0 <= q < tk.len() && tk[q] == i as usize;
                        assert(q < t);
                        assert(cand@.take(t as int)[q] == i as usize);
                    }
                }
                assert forall|i: int| 0 <= i < self.genes@.len() implies valid_assignment((#[trigger] self.genes@[i]).data@, np, self.divide@.len() as int) by {
                    if i == index {
                        assert(valid_assignment(before[i].data@, np, self.divide@.len() as int));
                    }
                }
                assert forall|i: int| 0 <= i < pop implies differing(
                    (#[trigger] self.genes@[i]).data@,
                    old(self).genes@[i].data@,
                    np,
                ) <= span by {
                    if i != index {
                        assert(self.genes@[i] == before[i]);
                    }
                }
            }
            t = t + 1;
        }
        cand.truncate(mutation_len);
        proof {
            assert(cand@ =~= cand@.take(mutation_len as int));
            assert forall|x: int, y: int| 0 <= x < cand@.len() && 0 <= y < cand@.len() && x != y implies cand@[x] != cand@[y] by {
                if x < y {
                    assert(cand@[x] != cand@[y]);
                } else {
                    assert(cand@[y] != cand@[x]);
                }
            }
        }
        cand
    }
}

/// `next` opens with the first `e` genes of `rk`, a ranking of `scored` by
/// ascending fitness.
pub open spec fn elites_of(rk: Seq<Gene>, scored: Seq<Gene>, next: Seq<Gene>, e: int) -> bool {
    &&& rk.to_multiset() == scored.to_multiset()
    &&& ranked(rk)
    &&& e <= next.len()
    &&& e <= rk.len()
    &&& forall|i: int| 0 <= i < e ==> (#[trigger] next[i]).data@ == rk[i].data@ && next[i].fitness == rk[i].fitness
}

/// Scored genes of a population of at most `MAX_POPULATION`.
pub open spec fn stats_ok(genes: Seq<Gene>) -> bool {
    &&& genes.len() <= MAX_POPULATION
    &&& forall|i: int| 0 <= i < genes.len() ==> (#[trigger] genes[i]).fitness is Some && score(genes[i]) <= fitness_limit()
}

/// `v` is the least fitness of the population.
pub open spec fn least_score(v: int, genes: Seq<Gene>) -> bool {
    &&& forall|i: int| 0 <= i < genes.len() ==> v <= score(#[trigger] genes[i])
    &&& exists|i: int| 0 <= i < genes.len() && v == score(#[trigger] genes[i])
}

/// Sum of the population's fitnesses.
pub fn total_fitness(genes: &Vec<Gene>) -> (r: u128)
    requires
        stats_ok(genes@),
    ensures
        r as int == score_sum(genes@, genes@.len() as int),
{
    let mut acc: u128 = 0;
    let mut i: usize = 0;
    while i < genes.len()
        invariant
            0 <= i <= genes@.len(),
            stats_ok(genes@),
            acc as int == score_sum(genes@, i as int),
            acc <= i * fitness_limit(),
        decreases genes@.len() - i,
    {
        let f = genes[i].fitness.unwrap();
        assert(f <= fitness_limit());
        assert(acc + f <= (i + 1) * fitness_limit()) by (nonlinear_arith)
            requires
                acc <= i * fitness_limit(),
                f <= fitness_limit(),
        ;
        assert((i + 1) * fitness_limit() <= MAX_POPULATION * fitness_limit()) by (nonlinear_arith)
            requires
                i + 1 <= MAX_POPULATION,
                fitness_limit() >= 0,
        ;
        acc = acc + f;
        i = i + 1;
    }
    acc
}

/// Diversity of the population: the sum over all ordered pairs of genes of
/// their fitness difference.
pub fn total_spread(genes: &Vec<Gene>) -> (r: u128)
    requires
        stats_ok(genes@),
    ensures
        r as int == spread(genes@, genes@.len() as int),
{
    let n = genes.len();
    let mut acc: u128 = 0;
    let mut y: usize = 0;
    while y < n
        invariant
            0 <= y <= n,
            n == genes@.len(),
            stats_ok(genes@),
            acc as int == spread(genes@, y as int),
            acc <= y * (MAX_POPULATION * fitness_limit()),
        decreases n - y,
    {
        let fy = genes[y].fitness.unwrap();
        let mut row: u128 = 0;
        let mut x: usize = 0;
        while x < n
            invariant
                0 <= x <= n,
                y < n,
                n == genes@.len(),
                stats_ok(genes@),
                fy as int == score(genes@[y as int]),
                row as int == row_spread(genes@, y as int, x as int),
                row <= x * fitness_limit(),
            decreases n - x,
        {
            let fx = genes[x].fitness.unwrap();
            let d: u128 = if fy >= fx {
                fy - fx
            } else {
                fx - fy
            };
            assert(fx <= fitness_limit() && fy <= fitness_limit());
            assert(row + d <= (x + 1) * fitness_limit()) by (nonlinear_arith)
                requires
                    row <= x * fitness_limit(),
                    d <= fitness_limit(),
            ;
            assert((x + 1) * fitness_limit() <= MAX_POPULATION * fitness_limit()) by (nonlinear_arith)
                requires
                    x + 1 <= MAX_POPULATION,
                    fitness_limit() >= 0,
            ;
            row = row + d;
            x = x + 1;
        }
        assert(row <= MAX_POPULATION * fitness_limit()) by (nonlinear_arith)
            requires
                row <= n * fitness_limit(),
                n <= MAX_POPULATION,
                fitness_limit() >= 0,
        ;
        assert(acc + row <= (y + 1) * (MAX_POPULATION * fitness_limit())) by (nonlinear_arith)
            requires
                acc <= y * (MAX_POPULATION * fitness_limit()),
                row <= MAX_POPULATION * fitness_limit(),
        ;
        assert((y + 1) * (MAX_POPULATION * fitness_limit()) <= MAX_POPULATION * (MAX_POPULATION * fitness_limit())) by (nonlinear_arith)
            requires
                y + 1 <= MAX_POPULATION,
                fitness_limit() >= 0,
        ;
        acc = acc + row;
        y = y + 1;
    }
    acc
}

/// Index of a gene with the least fitness.
pub fn best_index(genes: &Vec<Gene>) -> (r: usize)
    requires
        genes@.len() >= 1,
        all_evaluated(genes@),
    ensures
        r < genes@.len(),
        forall|i: int| 0 <= i < genes@.len() ==> score(genes@[r as int]) <= score(#[trigger] genes@[i]),
{
    let mut b: usize = 0;
    let mut i: usize = 1;
    while i < genes.len()
        invariant
            1 <= i <= genes@.len(),
            b < genes@.len(),
            all_evaluated(genes@),
            forall|t: int| 0 <= t < i ==> score(genes@[b as int]) <= score(#[trigger] genes@[t]),
        decreases genes@.len() - i,
    {
        if genes[i].fitness.unwrap() < genes[b].fitness.unwrap() {
            b = i;
        }
        i = i + 1;
    }
    b
}

impl GAModel {
    /// Resets the tracker and draws a fresh population: the start of a run.
    pub fn start(&mut self)
        requires
            old(self).config_ok(),
        ensures
            GAModel::same_setup(final(self), old(self)),
            final(self).population_wf(),
            final(self).best_ok(),
            final(self).tracker.wf(),
            final(self).tracker.total_generation == 0,
            final(self).tracker.best_gene.fitness is None,
    {
        self.tracker.reset();
        self.shake();
    }

    /// One generation: score and rank the population, record its best
    /// fitness, the sum of its fitnesses and its diversity, keep the best gene
    /// seen, then breed the next population by selection and mutation.
    /// Diversity is measured on the scored population of this generation, so
    /// that every fitness it uses is current.
    pub fn run_once(&mut self)
        requires
            old(self).config_ok(),
            old(self).population_wf(),
            old(self).best_ok(),
            old(self).tracker.wf(),
            old(self).tracker.total_generation < usize::MAX,
        ensures
            GAModel::same_setup(final(self), old(self)),
            final(self).population_wf(),
            final(self).best_ok(),
            final(self).tracker.wf(),
            final(self).tracker.total_generation == old(self).tracker.total_generation + 1,
            final(self).tracker.best_fitness_changes@.drop_last() == old(self).tracker.best_fitness_changes@,
            least_score(
                final(self).tracker.best_fitness_changes@.last() as int,
                evaluated(old(self).genes@, old(self).divide@, old(self).properties@),
            ),
            final(self).tracker.average_fitness_changes@ == old(self).tracker.average_fitness_changes@.push(
                score_sum(
                    evaluated(old(self).genes@, old(self).divide@, old(self).properties@),
                    old(self).gene_len as int,
                ) as u128,
            ),
            final(self).tracker.average_diff_changes@ == old(self).tracker.average_diff_changes@.push(
                spread(
                    evaluated(old(self).genes@, old(self).divide@, old(self).properties@),
                    old(self).gene_len as int,
                ) as u128,
            ),
            final(self).tracker.best_gene.fitness is Some,
            final(self).tracker.best_gene == old(self).tracker.best_gene || (least_score(
                score(final(self).tracker.best_gene),
                evaluated(old(self).genes@, old(self).divide@, old(self).properties@),
            ) && exists|i: int|
                0 <= i < old(self).gene_len && final(self).tracker.best_gene.data@ == (#[trigger] old(
                    self,
                ).genes@[i]).data@),
            old(self).tracker.best_gene.fitness is Some ==> score(final(self).tracker.best_gene)
                <= score(old(self).tracker.best_gene),
            forall|i: int| 0 <= i < old(self).gene_len ==> score(final(self).tracker.best_gene) <= score(
                #[trigger] evaluated(old(self).genes@, old(self).divide@, old(self).properties@)[i],
            ),
            old(self).tracker.best_gene.fitness is None || final(self).tracker.best_fitness_changes@.last() < score(old(self).tracker.best_gene)
                ==> score(final(self).tracker.best_gene) == final(self).tracker.best_fitness_changes@.last(),
            old(self).tracker.best_gene.fitness is Some && final(self).tracker.best_fitness_changes@.last() >= score(old(self).tracker.best_gene)
                ==> final(self).tracker.best_gene == old(self).tracker.best_gene,
            old(self).spec_elite_count() >= 1 ==> deviation(final(self).genes@[0].data@, final(self).divide@, final(self).properties@)
                == final(self).tracker.best_fitness_changes@.last(),
            exists|rk: Seq<Gene>|
                #[trigger] elites_of(
                    rk,
                    evaluated(old(self).genes@, old(self).divide@, old(self).properties@),
                    final(self).genes@,
                    old(self).spec_elite_count(),
                ),
    {
        self.evaluate_all();
        let ghost ev = self.genes@;
        proof {
            assert(stats_ok(self.genes@));
        }
        let average_fitness = total_fitness(&self.genes);
        let average_diff = total_spread(&self.genes);
        let b = best_index(&self.genes);
        let best_fitness = self.genes[b].fitness.unwrap();
        let improves = match self.tracker.best_gene.fitness {
            Some(f) => best_fitness < f,
            None => true,
        };
        if improves {
            self.tracker.best_gene = self.genes[b].duplicate();
        }
        proof {
            assert(least_score(best_fitness as int, ev)) by {
                assert(best_fitness as int == score(ev[b as int]));
            }
            assert(scored_ok(ev[b as int], self.divide@, self.properties@));
            assert(ev[b as int].data == old(self).genes@[b as int].data);
        }
        self.rank();
        let ghost rk = self.genes@;
        self.selection();
        let ghost bred = self.genes@;
        let drawn = self.mutation();
        self.tracker.append(best_fitness, average_fitness, average_diff);
        proof {
            let e = old(self).spec_elite_count();
            assert forall|i: int| 0 <= i < e implies (#[trigger] self.genes@[i]).data@ == rk[i].data@ && self.genes@[i].fitness == rk[i].fitness by {
                assert(!drawn@.contains(i as usize)) by {
                    if drawn@.contains(i as usize) {
                        let j = choose|j: int| 0 <= j < drawn@.len() && drawn@[j] == i as usize;
                        assert(e <= drawn@[j]);
                    }
                }
                assert(self.genes@[i] == bred[i]);
            }
            assert(elites_of(rk, ev, self.genes@, e));
            if e >= 1 {
                assert(rk.to_multiset() == ev.to_multiset());
                assert(ev.contains(ev[b as int]));
                assert(ev.to_multiset().count(ev[b as int]) > 0);
                assert(rk.to_multiset().count(ev[b as int]) > 0);
                assert(rk.contains(ev[b as int]));
                let q = choose|q: int| 0 <= q < rk.len() && rk[q] == ev[b as int];
                if q > 0 {
                    assert(score(rk[0]) <= score(rk[q]));
                }
                assert(rk.contains(rk[0]));
                assert(rk.to_multiset().count(rk[0]) > 0);
                assert(ev.to_multiset().count(rk[0]) > 0);
                assert(ev.contains(rk[0]));
                let p = choose|p: int| 0 <= p < ev.len() && ev[p] == rk[0];
                assert(best_fitness <= score(ev[p]));
                assert(scored_ok(rk[0], self.divide@, self.properties@));
                assert(self.genes@[0].data@ == rk[0].data@);
            }
            assert(self.tracker.best_fitness_changes@.drop_last() =~= old(self).tracker.best_fitness_changes@);
        }
    }

    /// Runs `generations` generations from a fresh population.
    pub fn fit(&mut self, generations: usize)
        requires
            old(self).config_ok(),
        ensures
            GAModel::same_setup(final(self), old(self)),
            final(self).population_wf(),
            final(self).best_ok(),
            final(self).tracker.wf(),
            final(self).tracker.total_generation == generations,
            generations > 0 ==> final(self).tracker.best_gene.fitness is Some,
            forall|k: int| 0 <= k < generations ==> score(final(self).tracker.best_gene) <= #[trigger] final(self).tracker.best_fitness_changes@[k],
            generations > 0 ==> exists|k: int| 0 <= k < generations && score(final(self).tracker.best_gene) == #[trigger] final(self).tracker.best_fitness_changes@[k],
            old(self).spec_elite_count() >= 1 ==> forall|a: int, b: int| 0 <= a <= b < generations ==> #[trigger] final(self).tracker.best_fitness_changes@[b] <= #[trigger] final(self).tracker.best_fitness_changes@[a],
    {
        self.start();
        let mut generation: usize = 0;
        while generation < generations
            invariant
                0 <= generation <= generations,
                GAModel::same_setup(self, old(self)),
                self.config_ok(),
                self.population_wf(),
                self.best_ok(),
                self.tracker.wf(),
                self.tracker.total_generation == generation,
                generation > 0 ==> self.tracker.best_gene.fitness is Some,
                generation == 0 ==> self.tracker.best_gene.fitness is None,
                forall|k: int| 0 <= k < generation ==> score(self.tracker.best_gene) <= #[trigger] self.tracker.best_fitness_changes@[k],
                generation > 0 ==> exists|k: int| 0 <= k < generation && score(self.tracker.best_gene) == #[trigger] self.tracker.best_fitness_changes@[k],
                self.spec_elite_count() >= 1 ==> forall|a: int, b: int| 0 <= a <= b < generation ==> #[trigger] self.tracker.best_fitness_changes@[b] <= #[trigger] self.tracker.best_fitness_changes@[a],
                self.spec_elite_count() >= 1 && generation > 0 ==> deviation(self.genes@[0].data@, self.divide@, self.properties@) == self.tracker.best_fitness_changes@.last(),
            decreases generations - generation,
        {
            let ghost prev = self.tracker.best_fitness_changes@;
            let ghost prev_best = self.tracker.best_gene;
            let ghost prev_genes = self.genes@;
            self.run_once();
            proof {
                let cur = self.tracker.best_fitness_changes@;
                let last = cur.last();
                assert(cur.drop_last() == prev);
                assert forall|k: int| 0 <= k < generation implies cur[k] == prev[k] by {
                    assert(cur.drop_last()[k] == cur[k]);
                }
                if generation > 0 && prev_best.fitness is Some && last >= score(prev_best) {
                    let k0 = choose|k: int| 0 <= k < generation && score(prev_best) == #[trigger] prev[k];
                    assert(cur[k0] == prev[k0]);
                }
                if self.spec_elite_count() >= 1 && generation > 0 {
                    let ev = evaluated(prev_genes, self.divide@, self.properties@);
                    assert(last <= score(ev[0]));
                    assert(score(ev[0]) == deviation(prev_genes[0].data@, self.divide@, self.properties@));
                    assert(prev.last() == prev[generation - 1]);
                    assert forall|a: int, b: int| 0 <= a <= b < generation + 1 implies #[trigger] cur[b] <= #[trigger] cur[a] by {
                        if b == generation && a < generation {
                            assert(prev[generation - 1] <= prev[a]);
                        }
                    }
                }
                assert(cur[generation as int] == last);
                if !(generation > 0 && prev_best.fitness is Some && last >= score(prev_best)) {
                    assert(score(self.tracker.best_gene) == cur[generation as int]);
                }
            }
            generation = generation + 1;
        }
    }
}

impl GAModel {
    /// Population 500, mutation share 0.2 with 5 positions per mutated gene,
    /// elite share 0.1, parent share 0.9, no dataset, a generator seeded with
    /// `seed`, and a tracker started at `local_datetime`.
    pub fn new(seed: u64, local_datetime: i64) -> (r: GAModel)
        ensures
            r.genes@.len() == 0,
            r.gene_len == 500,
            r.divide@.len() == 0,
            r.properties@.len() == 0,
            r.mutation_probability == 200_000,
            r.mutation_gene_data_len == 5,
            r.elite_conservation_probability == 100_000,
            r.total_conservation_probability == 900_000,
            r.tracker.wf(),
            r.tracker.total_generation == 0,
            r.tracker.local_datetime == local_datetime,
    {
        GAModel::with_seed(Vec::new(), Vec::new(), 500, 200_000, 5, 100_000, 900_000, seed, local_datetime)
    }
}

} // verus!
