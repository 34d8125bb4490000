use bf_gb::folds::{assign_folds, class_groups};
use bf_gb::trainer::{
    confusion_counts, feature_columns, select_elements, unique_classes, ClassCounts, StratifiedKFold,
};

#[test]
fn unique_classes_sorted_distinct() {
    assert_eq!(unique_classes(&vec![3, 1, 3, 2, 1]), vec![1, 2, 3]);
    assert_eq!(unique_classes(&vec![]), Vec::<usize>::new());
    assert_eq!(unique_classes(&vec![5, 5, 5]), vec![5]);
}

#[test]
fn confusion_counts_example() {
    let pred = vec![0, 1, 1, 0, 0];
    let truth = vec![0, 1, 0, 0, 1];
    let r = confusion_counts(&pred, &truth);
    assert_eq!(
        r,
        vec![
            ClassCounts { class: 0, tp: 2, fp: 1, fn_: 1 },
            ClassCounts { class: 1, tp: 1, fp: 1, fn_: 1 },
        ]
    );
}

#[test]
fn confusion_counts_uses_common_prefix() {
    let pred = vec![1, 1];
    let truth = vec![1, 0, 0];
    let r = confusion_counts(&pred, &truth);
    assert_eq!(
        r,
        vec![
            ClassCounts { class: 0, tp: 0, fp: 0, fn_: 1 },
            ClassCounts { class: 1, tp: 1, fp: 1, fn_: 0 },
        ]
    );
}

#[test]
fn select_elements_in_order() {
    assert_eq!(select_elements(&vec![10, 20, 30], &vec![2, 0, 2]), vec![30, 10, 30]);
}

#[test]
fn feature_columns_ok_and_error() {
    assert_eq!(feature_columns(&vec![1, 3, 2], 3), Ok(vec![0, 2, 1]));
    assert_eq!(feature_columns(&vec![1, 5, 7], 3), Err(5));
    assert_eq!(feature_columns(&vec![], 0), Ok(vec![]));
    assert_eq!(feature_columns(&vec![2, 0, 9], 3), Err(0));
}

#[test]
fn class_groups_by_first_appearance() {
    assert_eq!(class_groups(&vec![1, 0, 1, 2, 0]), vec![vec![0, 2], vec![1, 4], vec![3]]);
    assert!(class_groups(&vec![]).is_empty());
}

#[test]
fn assign_folds_deals_in_turn() {
    let groups = vec![vec![0, 2, 4], vec![1, 3]];
    let r = assign_folds(&groups, 2);
    assert_eq!(r, vec![(vec![2, 3], vec![0, 4, 1]), (vec![0, 4, 1], vec![2, 3])]);
}

#[test]
fn split_without_shuffle_is_exact() {
    let kf = StratifiedKFold::new(2, false);
    let r = kf.split(&vec![1, 0, 1, 1, 0], 42);
    // groups: label 1 -> [0, 2, 3], label 0 -> [1, 4]
    assert_eq!(r, vec![(vec![2, 4], vec![0, 3, 1]), (vec![0, 3, 1], vec![2, 4])]);
}

#[test]
fn split_with_shuffle_partitions_and_stratifies() {
    let y: Vec<usize> = (0..23).map(|i| if i % 3 == 0 { 2 } else { i % 2 }).collect();
    let kf = StratifiedKFold::new(5, true);
    let r = kf.split(&y, 7);
    assert_eq!(r.len(), 5);
    let mut seen = vec![0usize; y.len()];
    for (f, (train, test)) in r.iter().enumerate() {
        let mut both: Vec<usize> = train.iter().chain(test.iter()).copied().collect();
        both.sort();
        assert_eq!(both, (0..y.len()).collect::<Vec<_>>());
        for &x in test {
            seen[x] += 1;
        }
        for c in 0..3 {
            let total = y.iter().filter(|&&l| l == c).count();
            let in_fold = test.iter().filter(|&&x| y[x] == c).count();
            assert_eq!(in_fold, (total + 5 - 1 - f) / 5);
        }
    }
    assert!(seen.iter().all(|&s| s == 1));
}

#[test]
fn shuffle_changes_order() {
    let y = vec![0usize; 30];
    let plain = StratifiedKFold::new(1, false).split(&y, 3);
    let shuffled = StratifiedKFold::new(1, true).split(&y, 3);
    assert_eq!(plain[0].1, (0..30).collect::<Vec<_>>());
    assert_ne!(shuffled[0].1, plain[0].1);
    let mut s = shuffled[0].1.clone();
    s.sort();
    assert_eq!(s, plain[0].1);
    let again = StratifiedKFold::new(1, true).split(&y, 3);
    assert_eq!(again, shuffled);
}

#[test]
fn split_of_nothing() {
    let r = StratifiedKFold::new(0, true).split(&vec![], 0);
    assert!(r.is_empty());
    let r = StratifiedKFold::new(3, true).split(&vec![], 0);
    assert_eq!(r, vec![(vec![], vec![]), (vec![], vec![]), (vec![], vec![])]);
}

#[test]
fn seed_fixes_the_split() {
    let y: Vec<usize> = (0..40).map(|i| i % 3).collect();
    let kf = StratifiedKFold::new(4, true);
    assert_eq!(kf.split(&y, 11), kf.split(&y, 11));
    assert_ne!(kf.split(&y, 11), kf.split(&y, 12));
}
