//! The working copies of a matrix that the kernels read.
//!
//! Both copies are padded to whole tiles with positive infinity. The second
//! copy is transposed, so that a kernel reads a column of the matrix as a
//! row of the copy.
use crate::product::{column, entry, is_dot, is_product, is_shortest, keeps_unreachable, row};
use crate::product::{lemma_dot_without_padding, lemma_entry_place};
use crate::weight::UNREACHABLE;
use vstd::prelude::*;

verus! {

/// `n` rounded up to a multiple of `unit`.
pub open spec fn padded_len(n: int, unit: int) -> int {
    ((n + unit - 1) / unit) * unit
}

/// A matrix and its transpose, each with `rows` rows of `cols` weights.
pub struct Layout {
    pub rows: usize,
    pub cols: usize,
    pub direct: Vec<u32>,
    pub transposed: Vec<u32>,
}

impl Layout {
    /// Both copies have `rows` times `cols` weights.
    pub open spec fn wf(&self) -> bool {
        &&& self.direct@.len() == self.rows * self.cols
        &&& self.transposed@.len() == self.rows * self.cols
    }

    /// The copies hold the `n` by `n` matrix `d`: entry `(i, c)` of the
    /// first is `d[i][c]`, entry `(j, c)` of the second is `d[c][j]`, and
    /// every entry outside the matrix is positive infinity.
    pub open spec fn holds(&self, d: Seq<u32>, n: int) -> bool {
        &&& n <= self.rows
        &&& n <= self.cols
        &&& forall|i: int, c: int|
            0 <= i < self.rows && 0 <= c < self.cols ==> #[trigger] entry(
                self.direct@,
                self.cols as int,
                i,
                c,
            ) == if i < n && c < n {
                entry(d, n, i, c)
            } else {
                UNREACHABLE
            }
        &&& forall|j: int, c: int|
            0 <= j < self.rows && 0 <= c < self.cols ==> #[trigger] entry(
                self.transposed@,
                self.cols as int,
                j,
                c,
            ) == if j < n && c < n {
                entry(d, n, c, j)
            } else {
                UNREACHABLE
            }
    }
}

/// `out` holds whole rows of a result with `n` columns, the first of them
/// row `first`: each entry is the least sum of its row of the first copy and
/// its column's row of the second.
pub open spec fn rows_done<P: Fn(u32, u32) -> u32>(
    plus: &P,
    lay: &Layout,
    n: int,
    first: int,
    out: Seq<u32>,
) -> bool {
    forall|a: int, j: int|
        0 <= a && 0 <= j < n && a * n + j < out.len() ==> is_dot(
            plus,
            row(lay.direct@, lay.cols as int, first + a),
            row(lay.transposed@, lay.cols as int, j),
            #[trigger] entry(out, n, a, j),
        )
}

/// Row `i` of a matrix is the part of it from place `i * cols` on.
pub proof fn lemma_row_is_part(m: Seq<u32>, rows: int, cols: int, i: int)
    requires
        0 <= i < rows,
        0 <= cols,
        m.len() == rows * cols,
    ensures
        0 <= i * cols,
        i * cols + cols <= m.len(),
        row(m, cols, i) == m.subrange(i * cols, i * cols + cols),
{
    assert(0 <= i * cols && i * cols + cols <= rows * cols) by (nonlinear_arith)
        requires
            0 <= i < rows,
            0 <= cols,
    ;
    assert(row(m, cols, i) =~= m.subrange(i * cols, i * cols + cols));
}

/// Rows that are done and the rows that follow them, done as well, are done
/// together.
pub proof fn lemma_rows_done_join<P: Fn(u32, u32) -> u32>(
    plus: &P,
    lay: &Layout,
    n: int,
    first: int,
    count: int,
    head: Seq<u32>,
    tail: Seq<u32>,
)
    requires
        0 < n,
        0 <= count,
        head.len() == count * n,
        rows_done(plus, lay, n, first, head),
        rows_done(plus, lay, n, first + count, tail),
    ensures
        rows_done(plus, lay, n, first, head + tail),
{
    let all = head + tail;
    assert forall|a: int, j: int| 0 <= a && 0 <= j < n && a * n + j < all.len() implies is_dot(
        plus,
        row(lay.direct@, lay.cols as int, first + a),
        row(lay.transposed@, lay.cols as int, j),
        #[trigger] entry(all, n, a, j),
    ) by {
        if a < count {
            lemma_entry_place(count, n, a, j);
            assert(entry(all, n, a, j) == entry(head, n, a, j));
        } else {
            assert(a * n + j - count * n == (a - count) * n + j && a * n >= count * n)
                by (nonlinear_arith)
                requires
                    a >= count,
                    n > 0,
            ;
            assert(entry(all, n, a, j) == entry(tail, n, a - count, j));
        }
    }
}

/// A result whose rows are all done over a layout that holds `d` is the
/// distance product of `d` with itself.
pub proof fn lemma_rows_done_is_product<P: Fn(u32, u32) -> u32>(
    plus: &P,
    lay: &Layout,
    d: Seq<u32>,
    n: int,
    r: Seq<u32>,
)
    requires
        0 <= n,
        keeps_unreachable(plus),
        lay.wf(),
        lay.holds(d, n),
        r.len() == n * n,
        rows_done(plus, lay, n, 0, r),
    ensures
        is_product(plus, d, n, r),
{
    let cols = lay.cols as int;
    assert forall|i: int, j: int| 0 <= i < n && 0 <= j < n implies is_shortest(
        plus,
        d,
        n,
        i,
        j,
        #[trigger] entry(r, n, i, j),
    ) by {
        lemma_entry_place(n, n, i, j);
        let a = row(lay.direct@, cols, i);
        let b = row(lay.transposed@, cols, j);
        assert(is_dot(plus, a, b, entry(r, n, i, j)));
        assert forall|k: int| n <= k < a.len() implies a[k] == UNREACHABLE && b[k] == UNREACHABLE by {
            assert(a[k] == entry(lay.direct@, cols, i, k));
            assert(b[k] == entry(lay.transposed@, cols, j, k));
        }
        lemma_dot_without_padding(plus, a, b, n, entry(r, n, i, j));
        assert forall|k: int| 0 <= k < n implies a.take(n)[k] == row(d, n, i)[k] && b.take(n)[k]
            == column(d, n, j)[k] by {
            assert(a[k] == entry(lay.direct@, cols, i, k));
            assert(b[k] == entry(lay.transposed@, cols, j, k));
        }
        assert(a.take(n) =~= row(d, n, i));
        assert(b.take(n) =~= column(d, n, j));
    }
}

/// A rounded length is a multiple of the unit, and the least one that is not
/// below the length.
pub proof fn lemma_padded_len(n: int, unit: int)
    requires
        0 <= n,
        0 < unit,
    ensures
        n <= padded_len(n, unit) < n + unit,
        padded_len(n, unit) % unit == 0,
        padded_len(n, unit) / unit == (n + unit - 1) / unit,
{
    let q = (n + unit - 1) / unit;
    vstd::arithmetic::div_mod::lemma_fundamental_div_mod(n + unit - 1, unit);
    vstd::arithmetic::div_mod::lemma_mod_bound(n + unit - 1, unit);
    assert(q * unit == unit * q) by (nonlinear_arith);
    vstd::arithmetic::div_mod::lemma_fundamental_div_mod_converse(q * unit, unit, q, 0);
}

/// `n` rounded up to a multiple of `unit`.
pub fn round_up(n: usize, unit: usize) -> (m: usize)
    requires
        0 < unit,
        n + unit <= usize::MAX,
    ensures
        m == padded_len(n as int, unit as int),
{
    proof {
        lemma_padded_len(n as int, unit as int);
    }
    ((n + unit - 1) / unit) * unit
}

/// Copies the `n` by `n` matrix `d` into a layout whose number of rows is
/// `n` rounded up to a multiple of `row_unit`, and whose number of columns
/// is `n` rounded up to a multiple of `col_unit`.
pub fn preprocess(d: &[u32], n: usize, row_unit: usize, col_unit: usize) -> (lay: Layout)
    requires
        d@.len() == n * n,
        0 < row_unit,
        0 < col_unit,
        (n + row_unit) * (n + col_unit) <= usize::MAX,
    ensures
        lay.rows == padded_len(n as int, row_unit as int),
        lay.cols == padded_len(n as int, col_unit as int),
        lay.wf(),
        lay.holds(d@, n as int),
{
    proof {
        lemma_padded_len(n as int, row_unit as int);
        lemma_padded_len(n as int, col_unit as int);
        assert(n + row_unit <= usize::MAX && n + col_unit <= usize::MAX) by (nonlinear_arith)
            requires
                (n + row_unit) * (n + col_unit) <= usize::MAX,
                0 < row_unit,
                0 < col_unit,
                0 <= n,
        ;
        assert(padded_len(n as int, row_unit as int) * padded_len(n as int, col_unit as int)
            <= (n + row_unit) * (n + col_unit)) by (nonlinear_arith)
            requires
                0 <= padded_len(n as int, row_unit as int) < n + row_unit,
                0 <= padded_len(n as int, col_unit as int) < n + col_unit,
        ;
    }
    let cells = d.len();
    assert(cells == n * n);
    let rows = round_up(n, row_unit);
    let cols = round_up(n, col_unit);
    let size = rows * cols;
    let mut direct: Vec<u32> = vec![UNREACHABLE; size];
    let mut transposed: Vec<u32> = vec![UNREACHABLE; size];
    proof {
        assert forall|a: int, c: int| 0 <= a < rows && 0 <= c < cols implies #[trigger] entry(
            direct@,
            cols as int,
            a,
            c,
        ) == UNREACHABLE by {
            lemma_entry_place(rows as int, cols as int, a, c);
        }
        assert forall|a: int, c: int| 0 <= a < rows && 0 <= c < cols implies #[trigger] entry(
            transposed@,
            cols as int,
            a,
            c,
        ) == UNREACHABLE by {
            lemma_entry_place(rows as int, cols as int, a, c);
        }
    }
    let mut i: usize = 0;
    while i < n
        invariant
            i <= n,
            n <= rows,
            n <= cols,
            d@.len() == n * n,
            n * n <= usize::MAX,
            size == rows * cols,
            direct@.len() == size,
            transposed@.len() == size,
            forall|a: int, c: int|
                0 <= a < rows && 0 <= c < cols ==> #[trigger] entry(direct@, cols as int, a, c)
                    == if a < i && c < n {
                    entry(d@, n as int, a, c)
                } else {
                    UNREACHABLE
                },
            forall|a: int, c: int|
                0 <= a < rows && 0 <= c < cols ==> #[trigger] entry(transposed@, cols as int, a, c)
                    == if a < i && c < n {
                    entry(d@, n as int, c, a)
                } else {
                    UNREACHABLE
                },
        decreases n - i,
    {
        let mut j: usize = 0;
        while j < n
            invariant
                i < n,
                j <= n,
                n <= rows,
                n <= cols,
                d@.len() == n * n,
                n * n <= usize::MAX,
                size == rows * cols,
                direct@.len() == size,
                transposed@.len() == size,
                forall|a: int, c: int|
                    0 <= a < rows && 0 <= c < cols ==> #[trigger] entry(direct@, cols as int, a, c)
                        == if (a < i || (a == i && c < j)) && c < n {
                        entry(d@, n as int, a, c)
                    } else {
                        UNREACHABLE
                    },
                forall|a: int, c: int|
                    0 <= a < rows && 0 <= c < cols ==> #[trigger] entry(
                        transposed@,
                        cols as int,
                        a,
                        c,
                    ) == if (a < i || (a == i && c < j)) && c < n {
                        entry(d@, n as int, c, a)
                    } else {
                        UNREACHABLE
                    },
            decreases n - j,
        {
            proof {
                lemma_entry_place(rows as int, cols as int, i as int, j as int);
                lemma_entry_place(n as int, n as int, i as int, j as int);
                lemma_entry_place(n as int, n as int, j as int, i as int);
            }
            let ghost before = direct@;
            let ghost before_t = transposed@;
            assert(cols * i + j == i * cols + j && 0 <= cols * i) by (nonlinear_arith);
            let at = cols * i + j;
            assert(n * i + j == i * n + j && n * j + i == j * n + i && 0 <= n * i && 0 <= n * j)
                by (nonlinear_arith);
            let x = d[n * i + j];
            let y = d[n * j + i];
            direct[at] = x;
            transposed[at] = y;
            proof {
                assert forall|a: int, c: int| 0 <= a < rows && 0 <= c < cols implies #[trigger] entry(
                    direct@,
                    cols as int,
                    a,
                    c,
                ) == if (a < i || (a == i && c < j + 1)) && c < n {
                    entry(d@, n as int, a, c)
                } else {
                    UNREACHABLE
                } by {
                    lemma_entry_place(rows as int, cols as int, a, c);
                    assert(entry(before, cols as int, a, c) == before[a * cols + c]);
                }
                assert forall|a: int, c: int| 0 <= a < rows && 0 <= c < cols implies #[trigger] entry(
                    transposed@,
                    cols as int,
                    a,
                    c,
                ) == if (a < i || (a == i && c < j + 1)) && c < n {
                    entry(d@, n as int, c, a)
                } else {
                    UNREACHABLE
                } by {
                    lemma_entry_place(rows as int, cols as int, a, c);
                    assert(entry(before_t, cols as int, a, c) == before_t[a * cols + c]);
                }
            }
            j += 1;
        }
        i += 1;
    }
    Layout { rows, cols, direct, transposed }
}

} // verus!
