use galax::order::{permute, sort_indices_by_key};
use galax::sampling::{first_indices, sample_indices};

#[test]
fn sort_is_stable_by_key() {
    let keys = vec![5u64, 1, 5, 0, 1, 9];
    assert_eq!(sort_indices_by_key(&keys), vec![3, 1, 4, 0, 2, 5]);
    assert_eq!(sort_indices_by_key(&vec![]), Vec::<usize>::new());
}

#[test]
fn sort_matches_std_stable_sort() {
    for n in [1usize, 2, 7, 64, 333] {
        let keys: Vec<u64> = (0..n).map(|_| fastrand::u64(0..20)).collect();
        let mut expected: Vec<usize> = (0..n).collect();
        expected.sort_by_key(|&i| keys[i]);
        assert_eq!(sort_indices_by_key(&keys), expected);
    }
}

#[test]
fn permute_takes_entries_in_order() {
    let mut v = vec![10.0, 20.0, 30.0];
    permute(&mut v, &vec![2, 0, 1]);
    assert_eq!(v, vec![30.0, 10.0, 20.0]);
    let mut keys = vec![5u64, 1, 5, 0];
    let order = sort_indices_by_key(&keys);
    permute(&mut keys, &order);
    assert_eq!(keys, vec![0, 1, 5, 5]);
}

#[test]
fn samples_are_distinct_indices() {
    let picked = sample_indices(100, 10);
    assert_eq!(picked.len(), 10);
    let mut sorted = picked.clone();
    sorted.sort();
    sorted.dedup();
    assert_eq!(sorted.len(), 10);
    assert!(picked.iter().all(|&i| i < 100));
    // Asking for more than there are gives every index once.
    let mut all = sample_indices(5, 50);
    all.sort();
    assert_eq!(all, vec![0, 1, 2, 3, 4]);
    assert!(sample_indices(0, 3).is_empty());
}

#[test]
fn samples_are_shuffled() {
    // A sample that always took the first indices would not be random.
    let first: Vec<usize> = (0..10).collect();
    let draws: Vec<Vec<usize>> = (0..5).map(|_| sample_indices(1000, 10)).collect();
    assert!(draws.iter().any(|d| *d != first));
    assert!(draws.iter().any(|d| *d != draws[0]));
}

#[test]
fn first_indices_keeps_the_front_in_order() {
    assert_eq!(first_indices(vec![4, 2, 7, 1], 2), vec![4, 2]);
    assert_eq!(first_indices(vec![3, 1], 5), vec![3, 1]);
    assert_eq!(first_indices(vec![9, 8, 7], 0), Vec::<usize>::new());
}
