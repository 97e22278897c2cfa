use galax::moments::{kernel_deriv_idx, moment_index, num_moments};

#[test]
fn num_moments_counts_terms_up_to_order() {
    assert_eq!(num_moments(0), 1);
    assert_eq!(num_moments(1), 3);
    assert_eq!(num_moments(2), 6);
    assert_eq!(num_moments(4), 15);
    assert_eq!(num_moments(8), 45);
}

#[test]
fn moment_index_orders_by_total_degree_then_j() {
    assert_eq!(moment_index(0, 0), 0);
    assert_eq!(moment_index(1, 0), 1);
    assert_eq!(moment_index(0, 1), 2);
    assert_eq!(moment_index(2, 0), 3);
    assert_eq!(moment_index(1, 1), 4);
    assert_eq!(moment_index(0, 2), 5);
    assert_eq!(moment_index(3, 1), 11);
}

#[test]
fn moment_index_is_a_bijection_onto_the_array() {
    for p in 0..10usize {
        let mut seen = vec![false; num_moments(p)];
        for n in 0..=p {
            for j in 0..=n {
                let idx = moment_index(n - j, j);
                assert!(idx < num_moments(p));
                assert!(!seen[idx], "slot {} used twice", idx);
                seen[idx] = true;
            }
        }
        assert!(seen.iter().all(|&s| s));
    }
}

#[test]
fn kernel_deriv_idx_rows_of_width_two_p_plus_one() {
    assert_eq!(kernel_deriv_idx(0, 0, 4), 0);
    assert_eq!(kernel_deriv_idx(1, 0, 4), 9);
    assert_eq!(kernel_deriv_idx(0, 1, 4), 10);
    assert_eq!(kernel_deriv_idx(2, 3, 4), 48);
    let p = 3;
    let mut seen = std::collections::HashSet::new();
    for k in 0..=2 * p {
        for l in 0..=(2 * p - k) {
            let idx = kernel_deriv_idx(k, l, p);
            assert!(idx < (2 * p + 1) * (2 * p + 1));
            assert!(seen.insert(idx));
        }
    }
}
