use autoint::community::{grow_window, initial_window, select_unique_communities, sort_communities, transpose};

#[test]
fn sort_is_stable_and_largest_first() {
    let input = vec![vec![1], vec![2, 3], vec![4], vec![5, 6, 7], vec![8, 9]];
    let sorted = sort_communities(input);
    assert_eq!(sorted, vec![vec![5, 6, 7], vec![2, 3], vec![8, 9], vec![1], vec![4]]);
}

#[test]
fn sort_of_nothing() {
    assert_eq!(sort_communities(vec![]), Vec::<Vec<usize>>::new());
}

#[test]
fn overlapping_communities_are_split() {
    let extracted = vec![vec![0, 1, 2], vec![1, 2, 3, 4], vec![5, 6], vec![6, 7, 8]];
    let unique = select_unique_communities(extracted, 2);
    // Visit order: [1,2,3,4], [0,1,2], [6,7,8], [5,6]
    // Kept: [1,2,3,4]; [0] is too small; [6,7,8]; [5] is too small.
    assert_eq!(unique, vec![vec![1, 2, 3, 4], vec![6, 7, 8]]);
}

#[test]
fn survivors_are_resorted_by_their_remaining_size() {
    let extracted = vec![vec![0, 1, 2, 3], vec![0, 1, 4, 5, 6], vec![7, 8, 9, 10]];
    let unique = select_unique_communities(extracted, 2);
    // Visit: [0,1,4,5,6] kept; [0,1,2,3] -> [2,3] kept; [7,8,9,10] kept.
    assert_eq!(unique, vec![vec![0, 1, 4, 5, 6], vec![7, 8, 9, 10], vec![2, 3]]);
}

#[test]
fn unique_communities_are_disjoint_and_large_enough() {
    let extracted = vec![
        vec![3, 1, 4],
        vec![1, 5, 9, 2],
        vec![6, 5, 3],
        vec![5, 8, 9, 7, 9],
        vec![3, 2, 3, 8],
        vec![4, 6, 2, 6],
    ];
    let unique = select_unique_communities(extracted.clone(), 2);
    for (i, a) in unique.iter().enumerate() {
        assert!(a.len() >= 2);
        for (j, b) in unique.iter().enumerate() {
            if i != j {
                assert!(a.iter().all(|x| !b.contains(x)));
            }
        }
        assert!(a.iter().all(|x| extracted.iter().any(|c| c.contains(x))));
    }
    for w in unique.windows(2) {
        assert!(w[0].len() >= w[1].len());
    }
}

#[test]
fn minimum_size_zero_keeps_empty_leftovers() {
    let unique = select_unique_communities(vec![vec![1, 2], vec![2, 1]], 0);
    assert_eq!(unique, vec![vec![1, 2], vec![]]);
}

#[test]
fn transpose_rectangular() {
    let m = vec![vec![1, 2, 3], vec![4, 5, 6]];
    let t = transpose(m.clone());
    assert_eq!(t, vec![vec![1, 4], vec![2, 5], vec![3, 6]]);
    assert_eq!(transpose(t), m);
}

#[test]
fn transpose_uses_first_row_width() {
    let m = vec![vec![1.0f32, 2.0], vec![3.0, 4.0, 5.0]];
    assert_eq!(transpose(m), vec![vec![1.0, 3.0], vec![2.0, 4.0]]);
}

#[test]
fn transpose_of_empty() {
    assert_eq!(transpose::<u8>(vec![]), Vec::<Vec<u8>>::new());
    assert_eq!(transpose::<u8>(vec![vec![], vec![1]]), Vec::<Vec<u8>>::new());
}

#[test]
fn window_sizes() {
    assert_eq!(initial_window(3, 1000), 50);
    assert_eq!(initial_window(30, 1000), 60);
    assert_eq!(initial_window(3, 20), 20);
    assert_eq!(grow_window(50, 1000), 100);
    assert_eq!(grow_window(600, 1000), 1000);
}

#[test]
fn large_candidates_are_never_passed_over() {
    let extracted = vec![vec![0, 1, 2], vec![2, 3, 4], vec![5, 6, 7], vec![1, 5, 9]];
    let unique = select_unique_communities(extracted.clone(), 3);
    for c in &extracted {
        assert!(c.iter().any(|x| unique.iter().any(|u| u.contains(x))));
    }
    for u in &unique {
        let mut seen = u.clone();
        seen.sort();
        seen.dedup();
        assert_eq!(seen.len(), u.len());
    }
}
