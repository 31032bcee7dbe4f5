use minplus::dispatch::{fill_group, in_turn};
use minplus::lanes::{Lanes, WIDTH};
use minplus::layout::preprocess;
use minplus::scalar::{dot, fill_row, BLOCK};
use minplus::tiled::{fill_rows, tile, TILE};
use minplus::Kernel;

const X: u32 = 0x7f80_0000;

fn plus(a: u32, b: u32) -> u32 {
    (f32::from_bits(a) + f32::from_bits(b)).to_bits()
}

fn b(x: f32) -> u32 {
    x.to_bits()
}

fn bits(m: &[f32]) -> Vec<u32> {
    m.iter().map(|x| x.to_bits()).collect()
}

fn numbers(m: &[u32]) -> Vec<f32> {
    m.iter().map(|x| f32::from_bits(*x)).collect()
}

fn least_sum(a: &[f32], c: &[f32]) -> f32 {
    let mut v = f32::INFINITY;
    for k in 0..a.len() {
        v = v.min(a[k] + c[k]);
    }
    v
}

#[test]
fn sizes_of_the_tiles() {
    assert_eq!(BLOCK, 4);
    assert_eq!(WIDTH, 8);
    assert_eq!(TILE, 3);
    assert_eq!(Kernel::Scalar.group_rows(), 1);
    assert_eq!(Kernel::Tiled.group_rows(), 3);
    assert_eq!(Kernel::Scalar.row_unit(), 4);
    assert_eq!(Kernel::Tiled.row_unit(), 8);
}

#[test]
fn lanes_infinity_is_infinity_in_every_lane() {
    assert_eq!(Lanes::infinity().lane, [X; 8]);
}

#[test]
fn lanes_load_takes_eight_weights_from_the_place() {
    let row: Vec<u32> = (10..30).collect();
    assert_eq!(Lanes::load(&row, 0).lane, [10, 11, 12, 13, 14, 15, 16, 17]);
    assert_eq!(Lanes::load(&row, 5).lane, [15, 16, 17, 18, 19, 20, 21, 22]);
    assert_eq!(Lanes::load(&row, 12).lane, [22, 23, 24, 25, 26, 27, 28, 29]);
}

#[test]
fn lanes_sum_adds_lane_by_lane() {
    let x = Lanes { lane: [b(1.0), b(2.0), b(3.0), b(4.0), b(5.0), b(6.0), b(7.0), X] };
    let y = Lanes { lane: [b(0.5), b(0.5), b(-3.0), X, b(1.0), b(2.0), b(3.0), X] };
    let got = x.sum(&y, &plus);
    assert_eq!(
        got.lane,
        [b(1.5), b(2.5), b(0.0), X, b(6.0), b(8.0), b(10.0), X]
    );
}

#[test]
fn lanes_min_takes_the_lesser_lane_by_lane() {
    let x = Lanes { lane: [b(1.0), b(2.0), b(3.0), X, b(5.0), b(f32::NAN), b(-7.0), X] };
    let y = Lanes { lane: [b(0.5), b(2.5), b(-3.0), b(4.0), X, b(2.0), b(-3.0), X] };
    let got = x.min(&y);
    assert_eq!(
        got.lane,
        [b(0.5), b(2.0), b(-3.0), b(4.0), b(5.0), b(2.0), b(-7.0), X]
    );
}

#[test]
fn lanes_horizontal_min_is_the_least_lane() {
    let x = Lanes { lane: [b(9.0), b(2.0), b(3.0), X, b(5.0), b(f32::NAN), b(1.5), X] };
    assert_eq!(x.horizontal_min(), b(1.5));
    assert_eq!(Lanes::infinity().horizontal_min(), X);
}

#[test]
fn dot_is_the_least_sum() {
    let a = [1.0, 5.0, 2.0, 9.0, 4.0, 4.0, 0.5, 8.0];
    let c = [7.0, 1.0, 6.0, 0.0, 3.0, 1.5, 6.0, 2.0];
    assert_eq!(least_sum(&a, &c), 5.5);
    assert_eq!(dot(&bits(&a), &bits(&c), &plus), b(5.5));
}

#[test]
fn dot_finds_the_least_in_every_lane() {
    for at in 0..12 {
        let mut a = vec![10.0f32; 12];
        let c = vec![1.0f32; 12];
        a[at] = 2.0;
        assert_eq!(dot(&bits(&a), &bits(&c), &plus), b(3.0), "at {}", at);
    }
}

#[test]
fn dot_of_nothing_is_unreachable() {
    assert_eq!(dot(&[], &[], &plus), X);
    assert_eq!(dot(&[X; 4], &[X; 4], &plus), X);
    assert_eq!(dot(&[X, X, X, X], &bits(&[1.0, 2.0, 3.0, 4.0]), &plus), X);
}

#[test]
fn tile_holds_the_nine_least_sums() {
    let cols = 16;
    let mut a = Vec::new();
    let mut c = Vec::new();
    for p in 0..3 {
        for k in 0..cols {
            a.push(((p * 7 + k * 3) % 11) as f32 + 0.25);
            c.push(((p * 5 + k * 9) % 13) as f32 + 0.5);
        }
    }
    let got = tile(&bits(&a), &bits(&c), cols, &plus);
    for p in 0..3 {
        for q in 0..3 {
            let want = least_sum(&a[p * cols..(p + 1) * cols], &c[q * cols..(q + 1) * cols]);
            assert_eq!(f32::from_bits(got[3 * p + q]), want, "{} {}", p, q);
        }
    }
}

#[test]
fn tile_has_exact_values() {
    let mut a = vec![X; 24];
    let mut c = vec![X; 24];
    a[0] = b(1.0);
    a[8 + 1] = b(2.0);
    a[16 + 7] = b(3.0);
    c[0] = b(10.0);
    c[8 + 1] = b(20.0);
    c[16 + 7] = b(30.0);
    c[16] = b(40.0);
    let got = tile(&a, &c, 8, &plus);
    assert_eq!(
        numbers(&got),
        vec![
            11.0,
            f32::INFINITY,
            41.0,
            f32::INFINITY,
            22.0,
            f32::INFINITY,
            f32::INFINITY,
            f32::INFINITY,
            33.0
        ]
    );
}

#[test]
fn tile_of_no_columns_is_unreachable() {
    assert_eq!(tile(&[], &[], 0, &plus), [X; 9]);
}

#[test]
fn fill_row_computes_one_row() {
    let d = bits(&[0.0, 8.0, 2.0, 1.0, 0.0, 9.0, 4.0, 5.0, 0.0]);
    let lay = preprocess(&d, 3, 1, 4);
    let mut out = vec![0u32; 3];
    fill_row(&mut out, 0, &lay, 3, &plus);
    assert_eq!(numbers(&out), vec![0.0, 7.0, 2.0]);
    fill_row(&mut out, 1, &lay, 3, &plus);
    assert_eq!(numbers(&out), vec![1.0, 0.0, 3.0]);
    fill_row(&mut out, 2, &lay, 3, &plus);
    assert_eq!(numbers(&out), vec![4.0, 5.0, 0.0]);
}

#[test]
fn fill_rows_computes_a_group_of_rows() {
    let d = bits(&[
        0.0, 3.0, 9.0, 9.0, 9.0, 0.0, 1.0, 9.0, 9.0, 9.0, 0.0, 2.0, 4.0, 9.0, 9.0, 0.0,
    ]);
    let lay = preprocess(&d, 4, 3, 8);
    let mut first = vec![0u32; 12];
    fill_rows(&mut first, 0, &lay, 4, &plus);
    assert_eq!(
        numbers(&first),
        vec![0.0, 3.0, 4.0, 9.0, 9.0, 0.0, 1.0, 3.0, 6.0, 9.0, 0.0, 2.0]
    );
    let mut last = vec![0u32; 4];
    fill_rows(&mut last, 1, &lay, 4, &plus);
    assert_eq!(numbers(&last), vec![4.0, 7.0, 9.0, 0.0]);
}

#[test]
fn fill_group_computes_the_group_of_its_kernel() {
    let d = bits(&[
        0.0, 3.0, 9.0, 9.0, 9.0, 0.0, 1.0, 9.0, 9.0, 9.0, 0.0, 2.0, 4.0, 9.0, 9.0, 0.0,
    ]);
    let scalar = preprocess(&d, 4, 1, 4);
    let mut row = vec![0u32; 4];
    fill_group(&mut row, 3, Kernel::Scalar, &scalar, 4, &plus);
    assert_eq!(numbers(&row), vec![4.0, 7.0, 9.0, 0.0]);
    fill_group(&mut row, 1, Kernel::Scalar, &scalar, 4, &plus);
    assert_eq!(numbers(&row), vec![9.0, 0.0, 1.0, 3.0]);
    let tiled = preprocess(&d, 4, 3, 8);
    fill_group(&mut row, 1, Kernel::Tiled, &tiled, 4, &plus);
    assert_eq!(numbers(&row), vec![4.0, 7.0, 9.0, 0.0]);
}

#[test]
fn in_turn_computes_every_group() {
    let d = bits(&[
        0.0, 3.0, 9.0, 9.0, 9.0, 0.0, 1.0, 9.0, 9.0, 9.0, 0.0, 2.0, 4.0, 9.0, 9.0, 0.0,
    ]);
    let want = vec![
        0.0, 3.0, 4.0, 9.0, 9.0, 0.0, 1.0, 3.0, 6.0, 9.0, 0.0, 2.0, 4.0, 7.0, 9.0, 0.0,
    ];
    let scalar = preprocess(&d, 4, 1, 4);
    let mut r = vec![0u32; 16];
    in_turn(&mut r, 4, Kernel::Scalar, &scalar, 4, &plus);
    assert_eq!(numbers(&r), want);
    let tiled = preprocess(&d, 4, 3, 8);
    let mut r = vec![0u32; 16];
    in_turn(&mut r, 12, Kernel::Tiled, &tiled, 4, &plus);
    assert_eq!(numbers(&r), want);
}
