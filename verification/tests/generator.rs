use bf_gb::generator::{combination_count, generate_combinations, try_combination_count, BatchGenerator};

#[test]
fn test_combination_count() {
    assert_eq!(combination_count(43, 4), 123_410);
    assert_eq!(combination_count(43, 5), 962_598);
    assert_eq!(combination_count(5, 2), 10);
}

#[test]
fn test_generate_combinations() {
    let combos: Vec<_> = generate_combinations(5, 2).into_iter().collect();
    assert_eq!(combos.len(), 10);
    assert_eq!(combos[0], vec![1, 2]);
    assert_eq!(combos[9], vec![4, 5]);
}

#[test]
fn combination_count_edges() {
    assert_eq!(combination_count(5, 7), 0);
    assert_eq!(combination_count(0, 0), 1);
    assert_eq!(combination_count(7, 0), 1);
    assert_eq!(combination_count(7, 7), 1);
    assert_eq!(combination_count(10, 3), combination_count(10, 7));
    assert_eq!(combination_count(10, 3), 120);
}

#[test]
fn try_combination_count_reports_overflow() {
    assert_eq!(try_combination_count(43, 4), Some(123_410));
    assert_eq!(try_combination_count(3, 5), Some(0));
    assert_eq!(try_combination_count(200, 100), None);
}

#[test]
fn generate_combinations_full_listing() {
    let combos = generate_combinations(4, 3);
    assert_eq!(combos, vec![vec![1, 2, 3], vec![1, 2, 4], vec![1, 3, 4], vec![2, 3, 4]]);
}

#[test]
fn generate_combinations_edges() {
    assert_eq!(generate_combinations(3, 0), vec![Vec::<usize>::new()]);
    assert!(generate_combinations(3, 4).is_empty());
    assert!(generate_combinations(0, 1).is_empty());
    assert_eq!(generate_combinations(3, 3), vec![vec![1, 2, 3]]);
}

#[test]
fn enumeration_matches_count() {
    for n in 0..9 {
        for k in 0..10 {
            assert_eq!(generate_combinations(n, k).len(), combination_count(n, k));
        }
    }
}

#[test]
fn combinations_sorted_and_distinct() {
    let combos = generate_combinations(7, 3);
    for w in combos.windows(2) {
        assert!(w[0] < w[1]);
    }
    for c in &combos {
        assert!(c.windows(2).all(|p| p[0] < p[1]));
        assert!(c.iter().all(|&x| 1 <= x && x <= 7));
    }
}

#[test]
fn batches_cover_all_in_order() {
    let mut g = BatchGenerator::new(5, 2, 3);
    assert_eq!(g.total_count(), 10);
    let mut sizes = Vec::new();
    let mut all = Vec::new();
    while let Some(batch) = g.next_batch() {
        sizes.push(batch.len());
        all.extend(batch);
    }
    assert_eq!(sizes, vec![3, 3, 3, 1]);
    assert_eq!(all, generate_combinations(5, 2));
    assert!(g.next_batch().is_none());
}

#[test]
fn batch_larger_than_list() {
    let mut g = BatchGenerator::new(4, 2, 100);
    let b = g.next_batch().unwrap();
    assert_eq!(b.len(), 6);
    assert!(g.next_batch().is_none());
}

#[test]
fn zero_batch_size_makes_no_progress() {
    let mut g = BatchGenerator::new(4, 2, 0);
    assert_eq!(g.next_batch(), Some(Vec::new()));
    assert_eq!(g.next_batch(), Some(Vec::new()));
}

#[test]
fn empty_generator_yields_nothing() {
    let mut g = BatchGenerator::new(2, 3, 5);
    assert_eq!(g.total_count(), 0);
    assert!(g.next_batch().is_none());
}

#[test]
fn total_count_unchanged_by_batches() {
    let mut g = BatchGenerator::new(6, 3, 4);
    assert_eq!(g.total_count(), combination_count(6, 3));
    while g.next_batch().is_some() {
        assert_eq!(g.total_count(), 20);
    }
    assert_eq!(g.total_count(), 20);
}
