use rust_genetic_algorithm::gene::{fitness_of, Gene};
use rust_genetic_algorithm::random::seeded_rng;

fn gene(data: Vec<u32>) -> Gene {
    Gene { data, fitness: None }
}

#[test]
fn fitness_is_zero_on_an_exact_split() {
    assert_eq!(fitness_of(&vec![0, 1, 0, 1], &vec![500_000, 500_000], &vec![10, 10, 10, 10]), 0);
}

#[test]
fn fitness_of_everything_in_one_category() {
    // shares 1.0 and 0.0 against 0.5 and 0.5: real fitness 1.0, scaled by 1e6 * 40
    assert_eq!(fitness_of(&vec![0, 0, 0, 0], &vec![500_000, 500_000], &vec![10, 10, 10, 10]), 40_000_000);
}

#[test]
fn fitness_with_uneven_weights() {
    // W = 10; shares 0.7 and 0.3 against 0.25 and 0.75: 0.45 + 0.45, scaled by 1e6 * 10
    assert_eq!(fitness_of(&vec![0, 0, 1], &vec![250_000, 750_000], &vec![5, 2, 3]), 9_000_000);
}

#[test]
fn fitness_positive_when_shares_differ() {
    let f = fitness_of(&vec![0, 0, 0, 1], &vec![500_000, 500_000], &vec![10, 10, 10, 10]);
    assert!(f > 0);
    assert_eq!(f, 20_000_000);
}

#[test]
fn single_category_always_exact() {
    for weights in [vec![3, 9, 1], vec![1, 1, 1], vec![100, 2, 50]] {
        assert_eq!(fitness_of(&vec![0, 0, 0], &vec![1_000_000], &weights), 0);
    }
}

#[test]
fn set_fitness_records_the_score() {
    let mut g = gene(vec![0, 0, 0, 1]);
    g.set_fitness(&vec![500_000, 500_000], &vec![10, 10, 10, 10]);
    assert_eq!(g.fitness, Some(20_000_000));
    assert_eq!(g.data, vec![0, 0, 0, 1]);
}

#[test]
fn init_draws_values_in_range() {
    let mut rng = seeded_rng(7);
    let mut g = Gene::default();
    g.init(200, 2, 5, &mut rng);
    assert_eq!(g.data.len(), 200);
    assert!(g.data.iter().all(|&v| (2..5).contains(&v)));
    assert!(g.data.iter().any(|&v| v != 2));
    assert_eq!(g.fitness, None);
}

#[test]
fn uniform_crossover_follows_the_mask() {
    let a = gene(vec![1, 2, 3, 4]);
    let b = gene(vec![5, 6, 7, 8]);
    let (c1, c2) = a.uniform_crossover_masked(&b, &vec![true, false, false, true]);
    assert_eq!(c1.data, vec![5, 2, 3, 8]);
    assert_eq!(c2.data, vec![1, 6, 7, 4]);
    assert_eq!(c1.fitness, None);
    assert_eq!(c2.fitness, None);
}

#[test]
fn uniform_crossover_keeps_each_pair_of_values() {
    let mut rng = seeded_rng(11);
    let a = gene((0..64).collect());
    let b = gene((100..164).collect());
    for _ in 0..20 {
        let (c1, c2) = a.uniform_crossover(&b, &mut rng);
        for i in 0..64 {
            let pair = (c1.data[i], c2.data[i]);
            assert!(pair == (a.data[i], b.data[i]) || pair == (b.data[i], a.data[i]));
        }
    }
}

#[test]
fn crossover_at_swaps_the_middle() {
    let a = gene(vec![1, 2, 3, 4, 5]);
    let b = gene(vec![6, 7, 8, 9, 10]);
    let (c1, c2) = a.crossover_at(&b, 1, 3);
    assert_eq!(c1.data, vec![6, 2, 3, 4, 10]);
    assert_eq!(c2.data, vec![1, 7, 8, 9, 5]);
}

#[test]
fn two_point_crossover_keeps_each_pair_of_values() {
    let mut rng = seeded_rng(3);
    let a = gene(vec![0, 0, 0, 0, 0, 0]);
    let b = gene(vec![1, 1, 1, 1, 1, 1]);
    let (c1, c2) = a.crossover(&b, &mut rng);
    for i in 0..6 {
        assert_eq!(c1.data[i] + c2.data[i], 1);
    }
}

#[test]
fn average_crossover_rounds_down() {
    let a = gene(vec![1, 4, 7, u32::MAX]);
    let b = gene(vec![2, 4, 0, u32::MAX]);
    assert_eq!(a.average_crossover(&b).data, vec![1, 4, 3, u32::MAX]);
}

#[test]
fn mutation_at_writes_in_order() {
    let a = gene(vec![0, 0, 0, 0]);
    let m = a.mutation_at(&vec![1, 3, 1], &vec![5, 6, 7]);
    assert_eq!(m.data, vec![0, 7, 0, 6]);
    assert_eq!(m.fitness, None);
}

#[test]
fn mutation_changes_at_most_count_positions() {
    let mut rng = seeded_rng(5);
    let a = gene(vec![0; 50]);
    for _ in 0..20 {
        let m = a.mutation(3, 1, 4, &mut rng);
        let changed = m.data.iter().zip(a.data.iter()).filter(|(x, y)| x != y).count();
        assert!(changed <= 3);
        assert!(changed >= 1);
        assert!(m.data.iter().all(|&v| v == 0 || (1..4).contains(&v)));
    }
}

#[test]
fn compare_counts_category_differences() {
    let a = gene(vec![0, 0, 1, 2]);
    let b = gene(vec![1, 1, 1, 2]);
    // counts: a = [2, 1, 1], b = [0, 3, 1]
    assert_eq!(a.compare(&b, 3), 4);
    assert_eq!(a.compare(&a, 3), 0);
}

#[test]
fn duplicate_keeps_everything() {
    let a = Gene { data: vec![3, 1], fitness: Some(9) };
    let d = a.duplicate();
    assert_eq!(d.data, a.data);
    assert_eq!(d.fitness, a.fitness);
}

#[test]
fn fitness_compares_with_the_shares_themselves() {
    // shares 0.5 and 0.5 against 0.4995 and 0.5005 (within the tolerance)
    assert_eq!(fitness_of(&vec![0, 1], &vec![499_500, 500_500], &vec![10, 10]), 20_000);
}

#[test]
fn a_longer_second_parent_is_accepted() {
    let a = gene(vec![1, 2, 3]);
    let b = gene(vec![6, 7, 8, 9, 10]);
    let (c1, c2) = a.crossover_at(&b, 1, 1);
    assert_eq!(c1.data, vec![6, 2, 8]);
    assert_eq!(c2.data, vec![1, 7, 3]);
    let (u1, u2) = a.uniform_crossover_masked(&b, &vec![true, false, true]);
    assert_eq!(u1.data, vec![6, 2, 8]);
    assert_eq!(u2.data, vec![1, 7, 3]);
    assert_eq!(a.average_crossover(&b).data, vec![3, 4, 5]);
    let x = gene(vec![0, 1]);
    let y = gene(vec![1, 1, 2, 2]);
    // counts over the first two positions: x = [1, 1, 0], y = [0, 2, 0]
    assert_eq!(x.compare(&y, 3), 2);
    let mut rng = seeded_rng(2);
    let (r1, r2) = a.crossover(&b, &mut rng);
    assert_eq!(r1.data.len(), 3);
    assert_eq!(r2.data.len(), 3);
}
