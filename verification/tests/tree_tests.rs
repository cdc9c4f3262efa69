use treerustler::data::Data;
use treerustler::tree::{DecisionTreeClassifier, TreeError};

fn table(rows: &[&[u64]]) -> Data {
    Data::from_data(rows.iter().map(|r| r.to_vec()).collect())
}

fn demo_data() -> (Data, Vec<u8>) {
    // The matrix "1 3; 2 3; 3 1; 3 1; 2 3" with labels [0, 0, 1, 1, 2].
    (
        table(&[&[1, 3], &[2, 3], &[3, 1], &[3, 1], &[2, 3]]),
        vec![0, 0, 1, 1, 2],
    )
}

#[test]
fn fit_then_predict_proba_on_demo_data() {
    // maxDepth = 1, minSamplesSplit = 2: fit succeeds, and predict_proba
    // returns five distributions, each summing to one (counts == total).
    let (x, y) = demo_data();
    let mut model = DecisionTreeClassifier::new(1, 2);
    assert_eq!(model.fit(&x, &y), Ok(()));
    let dists = model.predict_proba(&x).unwrap();
    assert_eq!(dists.len(), 5);
    for d in &dists {
        assert!(d.total > 0);
        let sum: u64 = d.entries.iter().map(|e| e.1).sum();
        assert_eq!(sum, d.total);
    }
}

#[test]
fn predict_preserves_row_count_and_order() {
    // One separable column: the tree reproduces the training labels, one
    // prediction per row, in row order.
    let x = table(&[&[1], &[2], &[3], &[4]]);
    let y: Vec<u8> = vec![0, 0, 1, 1];
    let mut model = DecisionTreeClassifier::new(5, 2);
    assert_eq!(model.fit(&x, &y), Ok(()));
    assert_eq!(model.predict(&x).unwrap(), vec![0, 0, 1, 1]);
    let dists = model.predict_proba(&x).unwrap();
    assert_eq!(dists.len(), x.rows);
}

#[test]
fn refitting_rebuilds_an_identical_tree() {
    // Deterministic tie-breaking: the same data under the same
    // hyperparameters always grows the same tree.
    let (x, y) = demo_data();
    let mut first = DecisionTreeClassifier::new(3, 2);
    let mut second = DecisionTreeClassifier::new(3, 2);
    first.fit(&x, &y).unwrap();
    second.fit(&x, &y).unwrap();
    assert_eq!(first, second);
    first.fit(&x, &y).unwrap();
    assert_eq!(first, second);
}

#[test]
fn single_class_gives_a_pure_leaf() {
    // Every label equal: the root is a leaf whose distribution has exactly
    // one key with probability one, whatever the depth budget.
    let x = table(&[&[1, 9], &[2, 8], &[3, 7]]);
    let y: Vec<u8> = vec![7, 7, 7];
    for max_depth in [0usize, 1, 10] {
        let mut model = DecisionTreeClassifier::new(max_depth, 2);
        model.fit(&x, &y).unwrap();
        let dists = model.predict_proba(&x).unwrap();
        for d in &dists {
            assert_eq!(d.entries, vec![(7, 3)]);
            assert_eq!(d.total, 3);
        }
    }
}

#[test]
fn prediction_tie_breaks_on_smallest_class() {
    // A leaf with classes 0 and 1 at equal counts predicts class 0.
    let x = table(&[&[1], &[2]]);
    let y: Vec<u8> = vec![1, 0];
    let mut model = DecisionTreeClassifier::new(5, 3);
    model.fit(&x, &y).unwrap();
    assert_eq!(model.predict(&x).unwrap(), vec![0, 0]);
}

#[test]
fn fit_rejects_mismatched_shapes() {
    let x = table(&[&[1], &[2]]);
    let y: Vec<u8> = vec![0, 1, 0];
    let mut model = DecisionTreeClassifier::new(2, 2);
    assert_eq!(model.fit(&x, &y), Err(TreeError::ShapeMismatch));
    assert!(model.predict(&x) == Err(TreeError::Unfitted));
}

#[test]
fn fit_rejects_an_empty_dataset() {
    let x = Data { rows: 0, cols: 1, data: vec![] };
    let y: Vec<u8> = vec![];
    let mut model = DecisionTreeClassifier::new(2, 2);
    assert_eq!(model.fit(&x, &y), Err(TreeError::EmptyInput));
}

#[test]
fn predict_before_fit_is_unfitted() {
    let x = table(&[&[1], &[2]]);
    let model = DecisionTreeClassifier::new(2, 2);
    assert_eq!(model.predict(&x), Err(TreeError::Unfitted));
    assert_eq!(model.predict_proba(&x), Err(TreeError::Unfitted));
}

#[test]
fn narrow_rows_fail_with_shape_mismatch() {
    // The tree splits on column 1; a one-column query row cannot be routed.
    let x = table(&[&[5, 1], &[5, 2]]);
    let y: Vec<u8> = vec![0, 1];
    let mut model = DecisionTreeClassifier::new(3, 2);
    model.fit(&x, &y).unwrap();
    let narrow = table(&[&[7]]);
    assert_eq!(model.predict(&narrow), Err(TreeError::ShapeMismatch));
    assert_eq!(model.predict_proba(&narrow), Err(TreeError::ShapeMismatch));
}

#[test]
fn stump_respects_the_depth_budget() {
    // maxDepth = 0 still allows the root split, whose children must be
    // leaves: predictions come from one split only.
    let x = table(&[&[1], &[2], &[3], &[4]]);
    let y: Vec<u8> = vec![0, 1, 0, 1];
    let mut model = DecisionTreeClassifier::new(0, 2);
    model.fit(&x, &y).unwrap();
    let p = model.predict(&x).unwrap();
    assert_eq!(p.len(), 4);
}

#[test]
fn min_samples_split_stops_growth() {
    // Four samples, minimum five: the root is a leaf with the full mix.
    let x = table(&[&[1], &[2], &[3], &[4]]);
    let y: Vec<u8> = vec![0, 0, 1, 1];
    let mut model = DecisionTreeClassifier::new(9, 5);
    model.fit(&x, &y).unwrap();
    let dists = model.predict_proba(&x).unwrap();
    for d in &dists {
        assert_eq!(d.entries, vec![(0, 2), (1, 2)]);
        assert_eq!(d.total, 4);
    }
}

#[test]
fn degenerate_split_becomes_a_leaf() {
    // Identical rows with mixed labels: every candidate routes all rows
    // left, so the builder stops with a leaf instead of recursing.
    let x = table(&[&[5], &[5], &[5]]);
    let y: Vec<u8> = vec![0, 1, 1];
    let mut model = DecisionTreeClassifier::new(4, 2);
    model.fit(&x, &y).unwrap();
    let dists = model.predict_proba(&x).unwrap();
    for d in &dists {
        assert_eq!(d.entries, vec![(0, 1), (1, 2)]);
        assert_eq!(d.total, 3);
    }
}

#[test]
fn refit_replaces_the_model_wholesale() {
    let x1 = table(&[&[1], &[2]]);
    let y1: Vec<u8> = vec![0, 1];
    let x2 = table(&[&[1], &[2]]);
    let y2: Vec<u8> = vec![1, 1];
    let mut model = DecisionTreeClassifier::new(3, 2);
    model.fit(&x1, &y1).unwrap();
    assert_eq!(model.predict(&x1).unwrap(), vec![0, 1]);
    model.fit(&x2, &y2).unwrap();
    assert_eq!(model.predict(&x1).unwrap(), vec![1, 1]);
}
