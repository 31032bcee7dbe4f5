use minplus::layout::{preprocess, round_up};

const X: u32 = 0x7f80_0000;

#[test]
fn round_up_has_exact_values() {
    assert_eq!(round_up(0, 4), 0);
    assert_eq!(round_up(1, 4), 4);
    assert_eq!(round_up(4, 4), 4);
    assert_eq!(round_up(5, 4), 8);
    assert_eq!(round_up(7, 8), 8);
    assert_eq!(round_up(8, 8), 8);
    assert_eq!(round_up(9, 8), 16);
    assert_eq!(round_up(97, 8), 104);
    assert_eq!(round_up(97, 3), 99);
    assert_eq!(round_up(97, 4), 100);
    assert_eq!(round_up(5, 1), 5);
}

#[test]
fn preprocess_pads_and_transposes() {
    let d = [1u32, 2, 3, 4, 5, 6, 7, 8, 9];
    let lay = preprocess(&d, 3, 1, 4);
    assert_eq!(lay.rows, 3);
    assert_eq!(lay.cols, 4);
    assert_eq!(lay.direct, vec![1, 2, 3, X, 4, 5, 6, X, 7, 8, 9, X]);
    assert_eq!(lay.transposed, vec![1, 4, 7, X, 2, 5, 8, X, 3, 6, 9, X]);
}

#[test]
fn preprocess_pads_rows_as_well() {
    let d = [1u32, 2, 3, 4];
    let lay = preprocess(&d, 2, 3, 8);
    assert_eq!(lay.rows, 3);
    assert_eq!(lay.cols, 8);
    assert_eq!(
        lay.direct,
        vec![1, 2, X, X, X, X, X, X, 3, 4, X, X, X, X, X, X, X, X, X, X, X, X, X, X]
    );
    assert_eq!(
        lay.transposed,
        vec![1, 3, X, X, X, X, X, X, 2, 4, X, X, X, X, X, X, X, X, X, X, X, X, X, X]
    );
}

#[test]
fn preprocess_of_a_whole_number_of_tiles_pads_nothing() {
    let d: Vec<u32> = (0..16).collect();
    let lay = preprocess(&d, 4, 1, 4);
    assert_eq!(lay.rows, 4);
    assert_eq!(lay.cols, 4);
    assert_eq!(lay.direct, d);
    assert_eq!(lay.transposed, vec![0, 4, 8, 12, 1, 5, 9, 13, 2, 6, 10, 14, 3, 7, 11, 15]);
}

#[test]
fn preprocess_of_nothing_is_empty() {
    let lay = preprocess(&[], 0, 3, 8);
    assert_eq!(lay.rows, 0);
    assert_eq!(lay.cols, 0);
    assert!(lay.direct.is_empty());
    assert!(lay.transposed.is_empty());
}
