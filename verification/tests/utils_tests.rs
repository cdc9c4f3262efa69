use treerustler::data::Data;
use treerustler::tree::utils::{find_best_split, get_probabilities, get_split, gini_index, split_y};

fn table(rows: &[&[u64]]) -> Data {
    Data::from_data(rows.iter().map(|r| r.to_vec()).collect())
}

#[test]
fn probabilities_of_two_even_classes() {
    // Five of each class: both probabilities are 5/10 = 0.5.
    let v: Vec<u8> = vec![1, 1, 1, 1, 1, 0, 0, 0, 0, 0];
    let d = get_probabilities(&v);
    assert_eq!(d.total, 10);
    assert_eq!(d.entries, vec![(0, 5), (1, 5)]);
}

#[test]
fn probability_counts_sum_to_the_total() {
    // The recorded probabilities of any non-empty vector sum to one:
    // the counts sum to the common total.
    for v in [
        vec![1u8, 1, 0, 0, 2],
        vec![7u8],
        vec![3u8, 3, 3, 9, 9, 250, 0],
    ] {
        let d = get_probabilities(&v);
        assert_eq!(d.total, v.len() as u64);
        let sum: u64 = d.entries.iter().map(|e| e.1).sum();
        assert_eq!(sum, d.total);
    }
}

#[test]
fn probabilities_of_empty_vector_are_empty() {
    let d = get_probabilities(&vec![]);
    assert_eq!(d.total, 0);
    assert!(d.entries.is_empty());
}

#[test]
fn probability_keys_are_ascending_observed_classes() {
    let v: Vec<u8> = vec![9, 2, 9, 200, 2, 2];
    let d = get_probabilities(&v);
    assert_eq!(d.entries, vec![(2, 3), (9, 2), (200, 1)]);
}

#[test]
fn gini_of_even_split_is_half() {
    // gini([1 x5, 0 x5]) == 0.5 exactly: 50 / 100.
    let v: Vec<u8> = vec![1, 1, 1, 1, 1, 0, 0, 0, 0, 0];
    let g = gini_index(&v);
    assert_eq!((g.num, g.den), (50, 100));
}

#[test]
fn gini_of_a_pure_vector_is_zero() {
    let v: Vec<u8> = vec![4, 4, 4];
    let g = gini_index(&v);
    assert_eq!(g.num, 0);
    assert!(g.den > 0);
}

#[test]
fn gini_positive_with_two_classes() {
    let g = gini_index(&vec![0u8, 1]);
    assert!(g.num > 0);
    assert_eq!((g.num, g.den), (2, 4));
}

#[test]
fn gini_of_three_even_classes_attains_two_thirds() {
    // Equiprobable classes maximize the impurity: 1 - 1/3 = 2/3.
    let g = gini_index(&vec![0u8, 1, 2]);
    assert_eq!(g.num * 3, g.den * 2);
}

#[test]
fn gini_of_empty_vector_is_zero() {
    let g = gini_index(&vec![]);
    assert_eq!((g.num, g.den), (0, 1));
}

#[test]
fn split_y_partitions_by_mask() {
    let y: Vec<u8> = vec![0, 1, 2, 3];
    let idx = vec![true, false, true, false];
    let (l, r) = split_y(&y, &idx);
    assert_eq!(l, vec![0, 2]);
    assert_eq!(r, vec![1, 3]);
}

#[test]
fn get_split_partitions_rows_and_labels() {
    let x = table(&[&[1, 10], &[2, 20], &[3, 30]]);
    let y: Vec<u8> = vec![5, 6, 7];
    let s = get_split(&x, &y, vec![true, false, true]);
    assert_eq!(s.left_data.0.rows, 2);
    assert_eq!(s.left_data.1, vec![5, 7]);
    assert_eq!(s.right_data.0.rows, 1);
    assert_eq!(s.right_data.0.data[0], vec![2, 20]);
    assert_eq!(s.right_data.1, vec![6]);
    assert_eq!(s.left_data.0.rows + s.right_data.0.rows, x.rows);
}

#[test]
fn best_split_minimizes_weighted_gini() {
    // Matrix "1 3; 2 3; 3 1; 3 1; 2 3", labels [0,0,1,1,2]: the candidates
    // (0, 2) and (1, 1) tie at weighted Gini 4/15; the scan meets (0, 2)
    // first, so it wins.
    let x = table(&[&[1, 3], &[2, 3], &[3, 1], &[3, 1], &[2, 3]]);
    let y: Vec<u8> = vec![0, 0, 1, 1, 2];
    assert_eq!(find_best_split(&x, &y), (0, 2));
}

#[test]
fn best_split_separates_two_classes_perfectly() {
    let x = table(&[&[5, 1], &[5, 2]]);
    let y: Vec<u8> = vec![0, 1];
    assert_eq!(find_best_split(&x, &y), (1, 1));
}
