use rust_genetic_algorithm::gene::Gene;
use rust_genetic_algorithm::model::{
    best_index, sort_by_fitness, total_fitness, total_spread, GAModel, GAModelTracker, GaError,
};

fn model(divide: Vec<u32>, properties: Vec<u32>, pop: usize, seed: u64) -> GAModel {
    GAModel::with_seed(divide, properties, pop, 200_000, 1, 100_000, 900_000, seed, 1_662_000_000)
}

fn scored(f: u128) -> Gene {
    Gene { data: vec![], fitness: Some(f) }
}

#[test]
fn counts_follow_the_fractions() {
    let m = GAModel::with_seed(vec![1_000_000], vec![1], 500, 200_000, 5, 100_000, 900_000, 1, 1_662_000_000);
    assert_eq!(m.elite_count(), 50);
    assert_eq!(m.pool_size(), 450);
    assert_eq!(m.mutation_count(), 100);
}

#[test]
fn odd_elite_count_is_made_even() {
    let m = GAModel::with_seed(vec![1_000_000], vec![1], 30, 0, 1, 100_000, 900_000, 1, 1_662_000_000);
    assert_eq!(m.elite_count(), 2);
    let m = GAModel::with_seed(vec![1_000_000], vec![1], 10, 0, 1, 100_000, 900_000, 1, 1_662_000_000);
    assert_eq!(m.elite_count(), 0);
}

#[test]
fn validate_accepts_a_good_setup() {
    assert_eq!(model(vec![500_000, 500_000], vec![10, 10, 10, 10], 20, 1).validate(), Ok(()));
}

#[test]
fn validate_rejects_empty_datasets() {
    assert_eq!(model(vec![], vec![1], 20, 1).validate(), Err(GaError::DatasetLengthMismatch));
    assert_eq!(model(vec![1_000_000], vec![], 20, 1).validate(), Err(GaError::DatasetLengthMismatch));
}

#[test]
fn validate_rejects_bad_configurations() {
    // a zero weight
    assert_eq!(model(vec![500_000, 500_000], vec![10, 0], 20, 1).validate(), Err(GaError::InvalidConfiguration));
    // targets summing to zero
    assert_eq!(model(vec![0, 0], vec![10], 20, 1).validate(), Err(GaError::InvalidConfiguration));
    // weights that overflow
    assert_eq!(
        model(vec![1_000_000], vec![u32::MAX, 1], 20, 1).validate(),
        Err(GaError::InvalidConfiguration)
    );
    // no population
    assert_eq!(model(vec![1_000_000], vec![1], 0, 1).validate(), Err(GaError::InvalidConfiguration));
    // a probability above one
    let m = GAModel::with_seed(vec![1_000_000], vec![1], 20, 1_000_001, 1, 100_000, 900_000, 1, 1_662_000_000);
    assert_eq!(m.validate(), Err(GaError::InvalidConfiguration));
    // an empty breeding pool
    let m = GAModel::with_seed(vec![1_000_000], vec![1], 20, 0, 1, 0, 10_000, 1, 1_662_000_000);
    assert_eq!(m.validate(), Err(GaError::InvalidConfiguration));
    // mutation with no gene outside the elite
    let m = GAModel::with_seed(vec![1_000_000], vec![1], 20, 500_000, 1, 1_000_000, 1_000_000, 1, 1_662_000_000);
    assert_eq!(m.validate(), Err(GaError::InvalidConfiguration));
}

#[test]
fn shake_fills_the_population() {
    let mut m = model(vec![333_333, 333_333, 333_334], vec![1, 2, 3, 4, 5], 30, 9);
    m.shake();
    assert_eq!(m.genes.len(), 30);
    for g in &m.genes {
        assert_eq!(g.data.len(), 5);
        assert!(g.data.iter().all(|&v| v < 3));
        assert_eq!(g.fitness, None);
    }
}

#[test]
fn set_fitnesses_ranks_ascending() {
    let mut m = model(vec![500_000, 500_000], vec![10, 10, 10, 10], 20, 4);
    m.shake();
    m.set_fitnesses();
    for w in m.genes.windows(2) {
        assert!(w[0].fitness.unwrap() <= w[1].fitness.unwrap());
    }
}

#[test]
fn population_size_is_kept_each_generation() {
    let mut m = model(vec![166_667, 333_333, 500_000], vec![4, 5, 6, 7, 8, 9], 25, 2);
    m.start();
    for _ in 0..10 {
        m.run_once();
        assert_eq!(m.genes.len(), 25);
    }
    assert_eq!(m.tracker.total_generation, 10);
}

#[test]
fn elites_reappear_unmodified() {
    let mut m = model(vec![250_000, 250_000, 500_000], vec![3, 1, 4, 1, 5, 9, 2, 6], 40, 8);
    m.start();
    m.set_fitnesses();
    let e = m.elite_count();
    assert_eq!(e, 4);
    let best: Vec<Vec<u32>> = m.genes[..e].iter().map(|g| g.data.clone()).collect();
    m.selection();
    m.mutation();
    let kept: Vec<Vec<u32>> = m.genes[..e].iter().map(|g| g.data.clone()).collect();
    assert_eq!(best, kept);
}

#[test]
fn mutation_replaces_only_drawn_non_elites() {
    let mut m = model(vec![500_000, 500_000], vec![1, 2, 3, 4, 5, 6], 50, 21);
    m.start();
    m.set_fitnesses();
    m.selection();
    let before: Vec<Vec<u32>> = m.genes.iter().map(|g| g.data.clone()).collect();
    let drawn = m.mutation();
    assert_eq!(drawn.len(), 10);
    assert!(drawn.iter().all(|&i| (4..50).contains(&i)));
    for i in 0..50 {
        if !drawn.contains(&i) {
            assert_eq!(m.genes[i].data, before[i]);
        } else {
            assert_eq!(m.genes[i].fitness, None);
            let changed = m.genes[i].data.iter().zip(before[i].iter()).filter(|(a, b)| a != b).count();
            assert!(changed <= 1);
            assert_eq!(drawn.iter().filter(|&&d| d == i).count(), 1);
        }
    }
}

#[test]
fn single_category_is_exact_from_the_first_generation() {
    let mut m = model(vec![1_000_000], vec![3, 8, 2, 7], 10, 6);
    m.fit(1);
    assert_eq!(m.tracker.best_fitness_changes, vec![0]);
    assert_eq!(m.tracker.average_fitness_changes, vec![0]);
    assert_eq!(m.tracker.average_diff_changes, vec![0]);
}

#[test]
fn halves_of_four_equal_weights() {
    let mut m = GAModel::with_seed(vec![500_000, 500_000], vec![10, 10, 10, 10], 20, 200_000, 1, 100_000, 900_000, 2022, 1_662_000_000);
    assert_eq!(m.validate(), Ok(()));
    m.fit(200);
    assert_eq!(m.tracker.total_generation, 200);
    let mut best_known = u128::MAX;
    let mut trail = Vec::new();
    for &b in &m.tracker.best_fitness_changes {
        best_known = best_known.min(b);
        trail.push(best_known);
    }
    assert!(trail.windows(2).all(|w| w[1] <= w[0]));
    // a real fitness of at most 0.05, scaled by 1e6 * 40
    assert!(best_known <= 2_000_000);
    // two elites carry the best forward, so the recorded bests never increase
    assert!(m.tracker.best_fitness_changes.windows(2).all(|w| w[1] <= w[0]));
    assert_eq!(m.tracker.best_gene.fitness, Some(best_known));
}

#[test]
fn best_known_never_worsens() {
    let mut m = model(vec![100_000, 200_000, 300_000, 400_000], (1..=30).collect(), 30, 77);
    m.start();
    let mut last = u128::MAX;
    for _ in 0..30 {
        m.run_once();
        let b = m.tracker.best_gene.fitness.unwrap();
        assert!(b <= last);
        last = b;
    }
}

#[test]
fn statistics_of_a_population() {
    let genes = vec![scored(4), scored(1), scored(7)];
    assert_eq!(total_fitness(&genes), 12);
    // |4-1| + |4-7| + |1-4| + |1-7| + |7-4| + |7-1| = 3 + 3 + 3 + 6 + 3 + 6
    assert_eq!(total_spread(&genes), 24);
    assert_eq!(best_index(&genes), 1);
}

#[test]
fn sort_orders_by_fitness() {
    let mut genes = vec![scored(5), scored(2), scored(9), scored(2)];
    sort_by_fitness(&mut genes);
    let f: Vec<u128> = genes.iter().map(|g| g.fitness.unwrap()).collect();
    assert_eq!(f, vec![2, 2, 5, 9]);
}

#[test]
fn tracker_append_and_reset() {
    let mut t = GAModelTracker::new(1_662_000_000);
    assert_eq!(t.local_datetime, 1_662_000_000);
    t.append(3, 10, 20);
    t.append(2, 8, 12);
    assert_eq!(t.total_generation, 2);
    assert_eq!(t.best_fitness_changes, vec![3, 2]);
    assert_eq!(t.average_fitness_changes, vec![10, 8]);
    assert_eq!(t.average_diff_changes, vec![20, 12]);
    t.reset();
    assert_eq!(t.total_generation, 0);
    assert!(t.best_fitness_changes.is_empty());
    assert_eq!(t.best_gene.fitness, None);
}

#[test]
fn default_model_parameters() {
    let m = GAModel::new(1, 1_662_000_000);
    assert_eq!(m.tracker.local_datetime, 1_662_000_000);
    assert_eq!(m.gene_len, 500);
    assert_eq!(m.mutation_probability, 200_000);
    assert_eq!(m.mutation_gene_data_len, 5);
    assert_eq!(m.elite_conservation_probability, 100_000);
    assert_eq!(m.total_conservation_probability, 900_000);
    assert_eq!(m.validate(), Err(GaError::DatasetLengthMismatch));
}

#[test]
fn same_seed_same_run() {
    let mut a = model(vec![250_000, 750_000], vec![2, 4, 6, 8, 10], 20, 99);
    let mut b = model(vec![250_000, 750_000], vec![2, 4, 6, 8, 10], 20, 99);
    a.fit(15);
    b.fit(15);
    assert_eq!(a.tracker.best_fitness_changes, b.tracker.best_fitness_changes);
    assert_eq!(a.tracker.best_gene.data, b.tracker.best_gene.data);
}

#[test]
fn shares_must_sum_to_one() {
    assert_eq!(model(vec![300_000, 300_000], vec![10, 10], 20, 1).validate(), Err(GaError::InvalidConfiguration));
    assert_eq!(model(vec![499_500, 499_500], vec![10, 10], 20, 1).validate(), Ok(()));
    assert_eq!(model(vec![499_000, 499_000], vec![10, 10], 20, 1).validate(), Err(GaError::InvalidConfiguration));
}

#[test]
fn mutation_count_must_fit_outside_the_elite() {
    // 20 genes, 10 elites, 12 mutations
    let m = GAModel::with_seed(vec![1_000_000], vec![1], 20, 600_000, 1, 500_000, 900_000, 1, 1_662_000_000);
    assert_eq!(m.validate(), Err(GaError::InvalidConfiguration));
    let m = GAModel::with_seed(vec![1_000_000], vec![1], 20, 500_000, 1, 500_000, 900_000, 1, 1_662_000_000);
    assert_eq!(m.validate(), Ok(()));
}

#[test]
fn crossover_children_come_in_pairs() {
    let mut m = model(vec![250_000, 250_000, 500_000], vec![3, 1, 4, 1, 5, 9, 2, 6], 20, 13);
    m.start();
    m.set_fitnesses();
    let parents: Vec<Vec<u32>> = m.genes.iter().map(|g| g.data.clone()).collect();
    let e = m.elite_count();
    let pool = m.pool_size();
    m.selection();
    let mut j = e;
    while j + 1 < 20 {
        let (c1, c2) = (&m.genes[j].data, &m.genes[j + 1].data);
        let found = (0..pool).any(|a| {
            (0..pool).any(|b| {
                (0..c1.len()).all(|n| {
                    (c1[n] == parents[a][n] && c2[n] == parents[b][n])
                        || (c1[n] == parents[b][n] && c2[n] == parents[a][n])
                })
            })
        });
        assert!(found);
        j += 2;
    }
}
