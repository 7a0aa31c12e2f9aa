use jaccard_graph::pairs::enumerate_pairs;
use jaccard_graph::pairs::enumerate_positions;
use jaccard_graph::pairs::pairs_fit_in_memory;

#[test]
fn four_keys_give_six_pairs_in_order() {
    let pairs = enumerate_pairs(&vec![10, 20, 30, 40]);
    assert_eq!(pairs, vec![(10, 20), (10, 30), (10, 40), (20, 30), (20, 40), (30, 40)]);
}

#[test]
fn positions_are_the_pairs_in_lexicographic_order() {
    assert_eq!(enumerate_positions(4), vec![(0, 1), (0, 2), (0, 3), (1, 2), (1, 3), (2, 3)]);
    assert_eq!(enumerate_positions(2), vec![(0, 1)]);
}

#[test]
fn fewer_than_two_keys_give_no_pair() {
    assert!(enumerate_pairs(&vec![]).is_empty());
    assert!(enumerate_pairs(&vec![7]).is_empty());
    assert!(enumerate_positions(0).is_empty());
    assert!(enumerate_positions(1).is_empty());
}

#[test]
fn n_keys_give_n_times_n_minus_one_over_two_pairs() {
    for n in 0..40usize {
        let keys: Vec<i32> = (0..n as i32).map(|k| 100 - k).collect();
        let pairs = enumerate_pairs(&keys);
        assert_eq!(pairs.len(), n * n.saturating_sub(1) / 2);
    }
}

#[test]
fn each_unordered_pair_occurs_once_and_no_key_meets_itself() {
    let keys = vec![5, -3, 12, 0, 8, 99];
    let pairs = enumerate_pairs(&keys);
    for (a, b) in pairs.iter() {
        assert_ne!(a, b);
    }
    for i in 0..keys.len() {
        for j in 0..keys.len() {
            if i != j {
                let hits = pairs
                    .iter()
                    .filter(|&&(a, b)| (a, b) == (keys[i], keys[j]) || (a, b) == (keys[j], keys[i]))
                    .count();
                assert_eq!(hits, 1);
            }
        }
    }
}

#[test]
fn the_pairs_of_a_huge_set_do_not_fit() {
    assert!(pairs_fit_in_memory(0));
    assert!(pairs_fit_in_memory(1));
    assert!(pairs_fit_in_memory(100_000));
    assert!(!pairs_fit_in_memory(usize::MAX));
}
