use treerustler::data::Data;

/// Order-preserving encoding of a finite double as a feature key: the key
/// order is the numeric order, and equal doubles get equal keys.
fn key_of(x: f64) -> u64 {
    let b = x.to_bits();
    if b & (1u64 << 63) != 0 {
        !b
    } else {
        b | (1u64 << 63)
    }
}

fn table(rows: &[&[f64]]) -> Data {
    let data: Vec<Vec<u64>> = rows
        .iter()
        .map(|r| r.iter().map(|&v| key_of(v)).collect())
        .collect();
    Data::from_data(data)
}

#[test]
fn from_data_records_shape() {
    let d = table(&[&[1.0, 2.0, 3.0], &[4.0, 5.0, 6.0], &[7.0, 8.0, 9.0]]);
    assert_eq!(d.rows, 3);
    assert_eq!(d.cols, 3);
    assert_eq!(d.data[0][0], key_of(1.0));
}

#[test]
fn get_col_projects_a_column() {
    let d = table(&[&[1.0, 2.0, 3.0], &[4.0, 5.0, 6.0], &[7.0, 8.0, 9.0]]);
    let col = d.get_col(0);
    assert_eq!(col, vec![key_of(1.0), key_of(4.0), key_of(7.0)]);
}

#[test]
fn lt_eq_masks_by_threshold() {
    let d = table(&[&[1.0, 2.0, 3.0], &[4.0, 5.0, 6.0], &[4.0, 8.0, 9.0]]);
    let mask = d.lt_eq(1, key_of(4.0));
    assert_eq!(mask, vec![true, false, false]);
}

#[test]
fn lt_eq_on_scenario_matrix() {
    // Rows "1.1 2.4; 1.1 0.0; 5.5 3.1; 4.0 4.0; 4.0 1.25; 6.1 3.1",
    // column 1, threshold 2.0: only 0.0 and 1.25 are at most the threshold.
    let d = table(&[
        &[1.1, 2.4],
        &[1.1, 0.0],
        &[5.5, 3.1],
        &[4.0, 4.0],
        &[4.0, 1.25],
        &[6.1, 3.1],
    ]);
    let mask = d.lt_eq(1, key_of(2.0));
    assert_eq!(mask, vec![false, true, false, false, true, false]);
}

#[test]
fn unique_sorts_and_deduplicates() {
    let d = table(&[&[4.0, 2.0], &[1.0, 5.0], &[4.0, 8.0]]);
    let u = d.unique(0);
    assert_eq!(u, vec![key_of(1.0), key_of(4.0)]);
}

#[test]
fn unique_keeps_a_single_value_once() {
    let d = table(&[&[3.0], &[3.0], &[3.0]]);
    assert_eq!(d.unique(0), vec![key_of(3.0)]);
}

#[test]
fn get_rows_selects_by_mask_in_order() {
    let d = table(&[&[1.0, 2.0], &[3.0, 4.0], &[5.0, 6.0]]);
    let picked = d.get_rows(vec![true, false, true]);
    assert_eq!(picked.rows, 2);
    assert_eq!(picked.cols, 2);
    assert_eq!(picked.data[0], vec![key_of(1.0), key_of(2.0)]);
    assert_eq!(picked.data[1], vec![key_of(5.0), key_of(6.0)]);
}

#[test]
fn get_rows_with_empty_selection() {
    let d = table(&[&[1.0], &[2.0]]);
    let picked = d.get_rows(vec![false, false]);
    assert_eq!(picked.rows, 0);
    assert_eq!(picked.cols, 1);
}

#[test]
fn key_encoding_is_monotone() {
    let values = [-10.5, -1.0, -0.0, 0.0, 0.5, 1.1, 2.0, 2.4, 1e300];
    for w in values.windows(2) {
        assert!(key_of(w[0]) <= key_of(w[1]));
    }
    assert!(key_of(-1.0) < key_of(1.0));
}
