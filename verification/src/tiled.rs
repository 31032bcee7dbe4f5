//! The kernel that computes a tile of three rows by three columns at once,
//! on vectors of weights.
use crate::lanes::{Lanes, WIDTH};
use crate::layout::{rows_done, Layout};
use crate::product::lemma_entry_place;
use crate::product::{entry, is_dot, row, sums_of, total};
use crate::weight::{least_in, least_of};
use crate::weight::{lemma_least_in_extend, lemma_least_is_unique, lemma_least_of_is_least, lemma_least_of_lanes};
use vstd::prelude::*;

verus! {

/// The number of rows, and of columns, of a tile.
pub const TILE: usize = 3;

/// The state of one accumulator of a tile after the first `legs.len()`
/// places of the rows `a` and `b`: lane `l` of `acc` is the least of the
/// sums `legs[k]` with `k % WIDTH == l`.
pub open spec fn running<P: Fn(u32, u32) -> u32>(
    plus: &P,
    a: Seq<u32>,
    b: Seq<u32>,
    acc: Seq<u32>,
    legs: Seq<u32>,
) -> bool {
    &&& acc.len() == WIDTH
    &&& a.len() == b.len()
    &&& legs.len() <= a.len()
    &&& (legs.len() as int) % (WIDTH as int) == 0
    &&& sums_of(plus, a.take(legs.len() as int), b.take(legs.len() as int), legs)
    &&& forall|l: int| 0 <= l < WIDTH ==> least_in(#[trigger] acc[l], legs, WIDTH as int, l)
}

/// Folds the sums of the vectors `d` and `t`, which hold the next `WIDTH`
/// places of the rows `a` and `b`, into the accumulator `acc`.
fn fold_in<P: Fn(u32, u32) -> u32>(
    acc: &Lanes,
    d: &Lanes,
    t: &Lanes,
    plus: &P,
    Ghost(a): Ghost<Seq<u32>>,
    Ghost(b): Ghost<Seq<u32>>,
    Ghost(legs): Ghost<Seq<u32>>,
) -> (out: (Lanes, Ghost<Seq<u32>>))
    requires
        total(plus),
        running(plus, a, b, acc@, legs),
        legs.len() + WIDTH <= a.len(),
        d@ == a.subrange(legs.len() as int, legs.len() + WIDTH),
        t@ == b.subrange(legs.len() as int, legs.len() + WIDTH),
    ensures
        running(plus, a, b, out.0@, out.1@),
        out.1@.len() == legs.len() + WIDTH,
{
    let s = d.sum(t, plus);
    let v = acc.min(&s);
    proof {
        let n = legs.len() as int;
        let all = legs + s@;
        lemma_least_in_extend(acc@, legs, s@, v@);
        vstd::arithmetic::div_mod::lemma_fundamental_div_mod(n, 8);
        vstd::arithmetic::div_mod::lemma_fundamental_div_mod_converse(n + 8, 8, n / 8 + 1, 0);
        assert forall|k: int| 0 <= k < all.len() implies call_ensures(
            plus,
            (a.take(all.len() as int)[k], b.take(all.len() as int)[k]),
            #[trigger] all[k],
        ) by {
            if k < n {
                assert(all[k] == legs[k]);
                assert(a.take(n)[k] == a[k]);
                assert(b.take(n)[k] == b[k]);
            } else {
                assert(all[k] == s@[k - n]);
                assert(d@[k - n] == a[k]);
                assert(t@[k - n] == b[k]);
            }
        }
    }
    (v, Ghost(legs + s@))
}

/// Reduces an accumulator that has taken in whole rows to their least sum.
fn finish<P: Fn(u32, u32) -> u32>(
    acc: &Lanes,
    Ghost(plus): Ghost<&P>,
    Ghost(a): Ghost<Seq<u32>>,
    Ghost(b): Ghost<Seq<u32>>,
    Ghost(legs): Ghost<Seq<u32>>,
) -> (v: u32)
    requires
        running(plus, a, b, acc@, legs),
        legs.len() == a.len(),
    ensures
        is_dot(plus, a, b, v),
{
    let v = acc.horizontal_min();
    proof {
        assert(a.take(legs.len() as int) =~= a);
        assert(b.take(legs.len() as int) =~= b);
        lemma_least_of_is_least(acc@);
        lemma_least_of_lanes(v, acc@, legs);
        lemma_least_of_is_least(legs);
        lemma_least_is_unique(v, least_of(legs), legs);
    }
    v
}

/// The vector loaded from row `p` of a block of rows is a part of that row.
proof fn lemma_part_of_row(m: Seq<u32>, cols: int, p: int, at: int)
    requires
        0 <= p < TILE,
        0 <= at,
        at + WIDTH <= cols,
        m.len() == TILE * cols,
    ensures
        0 <= p * cols + at,
        p * cols + at + WIDTH <= m.len(),
        m.subrange(p * cols + at, p * cols + at + WIDTH) == row(m, cols, p).subrange(
            at,
            at + WIDTH,
        ),
{
    assert(0 <= p * cols && p * cols + cols <= TILE * cols) by (nonlinear_arith)
        requires
            0 <= p < TILE,
            0 <= cols,
    ;
    assert(m.subrange(p * cols + at, p * cols + at + WIDTH) =~= row(m, cols, p).subrange(
        at,
        at + WIDTH,
    ));
}

/// The nine least sums of the three rows of `a` and the three rows of `b`:
/// the result for row `p` of `a` and row `q` of `b` stands at place
/// `3 * p + q`. Each vector of a row is loaded once and used for three of
/// the nine accumulators.
pub fn tile<P: Fn(u32, u32) -> u32>(a: &[u32], b: &[u32], cols: usize, plus: &P) -> (out: [u32; 9])
    requires
        total(plus),
        cols % WIDTH == 0,
        a@.len() == TILE * cols,
        b@.len() == TILE * cols,
    ensures
        forall|p: int, q: int|
            0 <= p < TILE && 0 <= q < TILE ==> is_dot(
                plus,
                row(a@, cols as int, p),
                row(b@, cols as int, q),
                #[trigger] entry(out@, TILE as int, p, q),
            ),
{
    let ghost a0 = row(a@, cols as int, 0);
    let ghost a1 = row(a@, cols as int, 1);
    let ghost a2 = row(a@, cols as int, 2);
    let ghost b0 = row(b@, cols as int, 0);
    let ghost b1 = row(b@, cols as int, 1);
    let ghost b2 = row(b@, cols as int, 2);
    let mut tmp0 = Lanes::infinity();
    let mut tmp1 = Lanes::infinity();
    let mut tmp2 = Lanes::infinity();
    let mut tmp3 = Lanes::infinity();
    let mut tmp4 = Lanes::infinity();
    let mut tmp5 = Lanes::infinity();
    let mut tmp6 = Lanes::infinity();
    let mut tmp7 = Lanes::infinity();
    let mut tmp8 = Lanes::infinity();
    let ghost mut legs0: Seq<u32> = Seq::empty();
    let ghost mut legs1: Seq<u32> = Seq::empty();
    let ghost mut legs2: Seq<u32> = Seq::empty();
    let ghost mut legs3: Seq<u32> = Seq::empty();
    let ghost mut legs4: Seq<u32> = Seq::empty();
    let ghost mut legs5: Seq<u32> = Seq::empty();
    let ghost mut legs6: Seq<u32> = Seq::empty();
    let ghost mut legs7: Seq<u32> = Seq::empty();
    let ghost mut legs8: Seq<u32> = Seq::empty();
    let len = a.len();
    let mut at: usize = 0;
    while at < cols
        invariant
            total(plus),
            cols % WIDTH == 0,
            at % WIDTH == 0,
            at <= cols,
            len == TILE * cols,
            a@.len() == TILE * cols,
            b@.len() == TILE * cols,
            a0 == row(a@, cols as int, 0),
            a1 == row(a@, cols as int, 1),
            a2 == row(a@, cols as int, 2),
            b0 == row(b@, cols as int, 0),
            b1 == row(b@, cols as int, 1),
            b2 == row(b@, cols as int, 2),
            legs0.len() == at,
            legs1.len() == at,
            legs2.len() == at,
            legs3.len() == at,
            legs4.len() == at,
            legs5.len() == at,
            legs6.len() == at,
            legs7.len() == at,
            legs8.len() == at,
            running(plus, a0, b0, tmp0@, legs0),
            running(plus, a0, b1, tmp1@, legs1),
            running(plus, a0, b2, tmp2@, legs2),
            running(plus, a1, b0, tmp3@, legs3),
            running(plus, a1, b1, tmp4@, legs4),
            running(plus, a1, b2, tmp5@, legs5),
            running(plus, a2, b0, tmp6@, legs6),
            running(plus, a2, b1, tmp7@, legs7),
            running(plus, a2, b2, tmp8@, legs8),
        decreases cols - at,
    {
        proof {
            lemma_part_of_row(a@, cols as int, 0, at as int);
            lemma_part_of_row(a@, cols as int, 1, at as int);
            lemma_part_of_row(a@, cols as int, 2, at as int);
            lemma_part_of_row(b@, cols as int, 0, at as int);
            lemma_part_of_row(b@, cols as int, 1, at as int);
            lemma_part_of_row(b@, cols as int, 2, at as int);
        }
        let d0 = Lanes::load(a, at);
        let d1 = Lanes::load(a, cols + at);
        let d2 = Lanes::load(a, 2 * cols + at);
        let t0 = Lanes::load(b, at);
        let t1 = Lanes::load(b, cols + at);
        let t2 = Lanes::load(b, 2 * cols + at);
        let (n0, g0) = fold_in(&tmp0, &d0, &t0, plus, Ghost(a0), Ghost(b0), Ghost(legs0));
        let (n1, g1) = fold_in(&tmp1, &d0, &t1, plus, Ghost(a0), Ghost(b1), Ghost(legs1));
        let (n2, g2) = fold_in(&tmp2, &d0, &t2, plus, Ghost(a0), Ghost(b2), Ghost(legs2));
        let (n3, g3) = fold_in(&tmp3, &d1, &t0, plus, Ghost(a1), Ghost(b0), Ghost(legs3));
        let (n4, g4) = fold_in(&tmp4, &d1, &t1, plus, Ghost(a1), Ghost(b1), Ghost(legs4));
        let (n5, g5) = fold_in(&tmp5, &d1, &t2, plus, Ghost(a1), Ghost(b2), Ghost(legs5));
        let (n6, g6) = fold_in(&tmp6, &d2, &t0, plus, Ghost(a2), Ghost(b0), Ghost(legs6));
        let (n7, g7) = fold_in(&tmp7, &d2, &t1, plus, Ghost(a2), Ghost(b1), Ghost(legs7));
        let (n8, g8) = fold_in(&tmp8, &d2, &t2, plus, Ghost(a2), Ghost(b2), Ghost(legs8));
        tmp0 = n0;
        tmp1 = n1;
        tmp2 = n2;
        tmp3 = n3;
        tmp4 = n4;
        tmp5 = n5;
        tmp6 = n6;
        tmp7 = n7;
        tmp8 = n8;
        proof {
            legs0 = g0@;
            legs1 = g1@;
            legs2 = g2@;
            legs3 = g3@;
            legs4 = g4@;
            legs5 = g5@;
            legs6 = g6@;
            legs7 = g7@;
            legs8 = g8@;
        }
        at += WIDTH;
    }
    let r0 = finish::<P>(&tmp0, Ghost(plus), Ghost(a0), Ghost(b0), Ghost(legs0));
    let r1 = finish::<P>(&tmp1, Ghost(plus), Ghost(a0), Ghost(b1), Ghost(legs1));
    let r2 = finish::<P>(&tmp2, Ghost(plus), Ghost(a0), Ghost(b2), Ghost(legs2));
    let r3 = finish::<P>(&tmp3, Ghost(plus), Ghost(a1), Ghost(b0), Ghost(legs3));
    let r4 = finish::<P>(&tmp4, Ghost(plus), Ghost(a1), Ghost(b1), Ghost(legs4));
    let r5 = finish::<P>(&tmp5, Ghost(plus), Ghost(a1), Ghost(b2), Ghost(legs5));
    let r6 = finish::<P>(&tmp6, Ghost(plus), Ghost(a2), Ghost(b0), Ghost(legs6));
    let r7 = finish::<P>(&tmp7, Ghost(plus), Ghost(a2), Ghost(b1), Ghost(legs7));
    let r8 = finish::<P>(&tmp8, Ghost(plus), Ghost(a2), Ghost(b2), Ghost(legs8));
    let out = [r0, r1, r2, r3, r4, r5, r6, r7, r8];
    proof {
        assert(entry(out@, 3, 0, 0) == r0 && entry(out@, 3, 0, 1) == r1 && entry(out@, 3, 0, 2) == r2);
        assert(entry(out@, 3, 1, 0) == r3 && entry(out@, 3, 1, 1) == r4 && entry(out@, 3, 1, 2) == r5);
        assert(entry(out@, 3, 2, 0) == r6 && entry(out@, 3, 2, 1) == r7 && entry(out@, 3, 2, 2) == r8);
    }
    out
}

/// The number of rows in group `g` of a result with `n` rows: a whole tile,
/// or what is left of the rows.
pub open spec fn rows_in_group(n: int, g: int) -> int {
    if n - TILE * g < TILE {
        n - TILE * g
    } else {
        TILE as int
    }
}

/// The entries of the group `out` that are done while tiles are written
/// into it: every column before `j0`, and of the tile that begins at column
/// `j0` the rows before `p` and, of row `p`, the columns before `j0 + q`.
spec fn done_upto<P: Fn(u32, u32) -> u32>(
    plus: &P,
    lay: &Layout,
    n: int,
    first: int,
    out: Seq<u32>,
    here: int,
    j0: int,
    p: int,
    q: int,
) -> bool {
    forall|a: int, j: int|
        0 <= a < here && 0 <= j < n && (j < j0 || (j < j0 + TILE && (a < p || (a == p && j < j0
            + q)))) ==> is_dot(
            plus,
            row(lay.direct@, lay.cols as int, first + a),
            row(lay.transposed@, lay.cols as int, j),
            #[trigger] entry(out, n, a, j),
        )
}

/// Row `p` of the block of three rows that begins at row `first` of a
/// matrix is row `first + p` of the matrix.
proof fn lemma_row_of_block(m: Seq<u32>, rows: int, cols: int, first: int, p: int)
    requires
        0 <= first,
        first + TILE <= rows,
        0 <= p < TILE,
        0 <= cols,
        m.len() == rows * cols,
    ensures
        0 <= first * cols,
        first * cols + TILE * cols <= m.len(),
        row(m.subrange(first * cols, first * cols + TILE * cols), cols, p) == row(
            m,
            cols,
            first + p,
        ),
{
    assert(0 <= first * cols && first * cols + TILE * cols <= rows * cols && 0 <= p * cols && p
        * cols + cols <= TILE * cols && (first + p) * cols == first * cols + p * cols)
        by (nonlinear_arith)
        requires
            0 <= first,
            first + TILE <= rows,
            0 <= p < TILE,
            0 <= cols,
    ;
    assert(row(m.subrange(first * cols, first * cols + TILE * cols), cols, p) =~= row(
        m,
        cols,
        first + p,
    ));
}

/// Computes group `g` of the result, the rows from `TILE * g` on, into
/// `out`, tile by tile. What a tile holds beyond the last row or the last
/// column of the result is left out.
pub fn fill_rows<P: Fn(u32, u32) -> u32>(out: &mut [u32], g: usize, lay: &Layout, n: usize, plus: &P)
    requires
        total(plus),
        lay.wf(),
        n <= lay.rows,
        lay.rows % TILE == 0,
        lay.cols % WIDTH == 0,
        TILE * g < n,
        old(out)@.len() == rows_in_group(n as int, g as int) * n,
    ensures
        final(out)@.len() == old(out)@.len(),
        rows_done(plus, lay, n as int, TILE * g, final(out)@),
{
    let cols = lay.cols;
    let size = lay.direct.len();
    let first = TILE * g;
    let here = if n - first < TILE {
        n - first
    } else {
        TILE
    };
    let cells = out.len();
    proof {
        assert(first + TILE <= lay.rows);
        lemma_row_of_block(lay.direct@, lay.rows as int, cols as int, first as int, 0);
    }
    let a = vstd::slice::slice_subrange(
        lay.direct.as_slice(),
        first * cols,
        first * cols + TILE * cols,
    );
    let mut j0: usize = 0;
    while j0 < n
        invariant
            total(plus),
            lay.wf(),
            n <= lay.rows,
            lay.rows % TILE == 0,
            cols == lay.cols,
            cols % WIDTH == 0,
            size == lay.rows * cols,
            first == TILE * g,
            first < n,
            first + TILE <= lay.rows,
            here == rows_in_group(n as int, g as int),
            out@.len() == here * n,
            cells == here * n,
            j0 % TILE == 0,
            first * cols + TILE * cols <= lay.direct@.len(),
            a@ == lay.direct@.subrange(first * cols, first * cols + TILE * cols),
            done_upto(plus, lay, n as int, first as int, out@, here as int, j0 as int, 0, 0),
        decreases n + TILE - j0,
    {
        proof {
            assert(j0 + TILE <= lay.rows);
            lemma_row_of_block(lay.transposed@, lay.rows as int, cols as int, j0 as int, 0);
        }
        let b = vstd::slice::slice_subrange(
            lay.transposed.as_slice(),
            j0 * cols,
            j0 * cols + TILE * cols,
        );
        let res = tile(a, b, cols, plus);
        let mut p: usize = 0;
        while p < TILE
            invariant
                lay.wf(),
                n <= lay.rows,
                lay.rows % TILE == 0,
                cols == lay.cols,
                size == lay.rows * cols,
                first == TILE * g,
                first < n,
                first + TILE <= lay.rows,
                j0 + TILE <= lay.rows,
                here == rows_in_group(n as int, g as int),
                out@.len() == here * n,
                cells == here * n,
                j0 % TILE == 0,
                j0 < n,
                p <= TILE,
                first * cols + TILE * cols <= lay.direct@.len(),
                j0 * cols + TILE * cols <= lay.transposed@.len(),
                a@ == lay.direct@.subrange(first * cols, first * cols + TILE * cols),
                b@ == lay.transposed@.subrange(j0 * cols, j0 * cols + TILE * cols),
                forall|x: int, y: int|
                    0 <= x < TILE && 0 <= y < TILE ==> is_dot(
                        plus,
                        row(a@, cols as int, x),
                        row(b@, cols as int, y),
                        #[trigger] entry(res@, TILE as int, x, y),
                    ),
                done_upto(plus, lay, n as int, first as int, out@, here as int, j0 as int, p as int, 0),
            decreases TILE - p,
        {
            let mut q: usize = 0;
            while q < TILE
                invariant
                    lay.wf(),
                    n <= lay.rows,
                    lay.rows % TILE == 0,
                    cols == lay.cols,
                    size == lay.rows * cols,
                    first == TILE * g,
                    first < n,
                    first + TILE <= lay.rows,
                    j0 + TILE <= lay.rows,
                    here == rows_in_group(n as int, g as int),
                    out@.len() == here * n,
                    cells == here * n,
                    j0 % TILE == 0,
                    j0 < n,
                    p < TILE,
                    q <= TILE,
                    first * cols + TILE * cols <= lay.direct@.len(),
                    j0 * cols + TILE * cols <= lay.transposed@.len(),
                    a@ == lay.direct@.subrange(first * cols, first * cols + TILE * cols),
                    b@ == lay.transposed@.subrange(j0 * cols, j0 * cols + TILE * cols),
                    forall|x: int, y: int|
                        0 <= x < TILE && 0 <= y < TILE ==> is_dot(
                            plus,
                            row(a@, cols as int, x),
                            row(b@, cols as int, y),
                            #[trigger] entry(res@, TILE as int, x, y),
                        ),
                    done_upto(
                        plus,
                        lay,
                        n as int,
                        first as int,
                        out@,
                        here as int,
                        j0 as int,
                        p as int,
                        q as int,
                    ),
                decreases TILE - q,
            {
                if first + p < n && j0 + q < n {
                    let ghost before = out@;
                    proof {
                        lemma_entry_place(here as int, n as int, p as int, j0 + q);
                        lemma_row_of_block(lay.direct@, lay.rows as int, cols as int, first as int, p as int);
                        lemma_row_of_block(lay.transposed@, lay.rows as int, cols as int, j0 as int, q as int);
                        assert(is_dot(
                            plus,
                            row(a@, cols as int, p as int),
                            row(b@, cols as int, q as int),
                            entry(res@, TILE as int, p as int, q as int),
                        ));
                    }
                    assert(0 <= p * n <= p * n + j0 + q) by (nonlinear_arith);
                    let v = res[TILE * p + q];
                    out[p * n + j0 + q] = v;
                    proof {
                        assert forall|x: int, y: int|
                            0 <= x < here && 0 <= y < n && (y < j0 || (y < j0 + TILE && (x < p || (x
                                == p && y < j0 + q + 1)))) implies is_dot(
                            plus,
                            row(lay.direct@, lay.cols as int, first + x),
                            row(lay.transposed@, lay.cols as int, y),
                            #[trigger] entry(out@, n as int, x, y),
                        ) by {
                            lemma_entry_place(here as int, n as int, x, y);
                            if x == p && y == j0 + q {
                            } else {
                                assert(entry(out@, n as int, x, y) == entry(before, n as int, x, y));
                            }
                        }
                    }
                }
                q += 1;
            }
            p += 1;
        }
        j0 += TILE;
    }
    proof {
        assert forall|x: int, y: int| 0 <= x && 0 <= y < n && x * n + y < out@.len() implies is_dot(
            plus,
            row(lay.direct@, lay.cols as int, TILE * g + x),
            row(lay.transposed@, lay.cols as int, y),
            #[trigger] entry(out@, n as int, x, y),
        ) by {
            assert(x < here) by (nonlinear_arith)
                requires
                    0 <= x,
                    0 <= y,
                    0 < n,
                    x * n + y < here * n,
            ;
        }
    }
}

} // verus!
