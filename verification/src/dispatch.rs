//! The dispatcher: it cuts the rows of the result into groups and has each
//! group computed by a kernel, one after the other or side by side.
use crate::lanes::WIDTH;
use crate::layout::{lemma_padded_len, lemma_rows_done_is_product, lemma_rows_done_join};
use crate::layout::{preprocess, rows_done, Layout};
use crate::product::{entry, is_dot, is_product, keeps_unreachable, row, total};
use crate::scalar::BLOCK;
use crate::tiled::TILE;
use rayon::iter::{IndexedParallelIterator, ParallelIterator};
use rayon::slice::ParallelSliceMut;
use vstd::prelude::*;

verus! {

/// The kernel that computes the entries.
#[derive(Clone, Copy, Debug)]
pub enum Kernel {
    /// Entry by entry, with a block of independent running minima.
    Scalar,
    /// Tile by tile, on vectors.
    Tiled,
}

impl Kernel {
    /// The number of rows that the kernel computes together.
    pub open spec fn group(self) -> int {
        match self {
            Kernel::Scalar => 1,
            Kernel::Tiled => TILE as int,
        }
    }

    /// The number of places of a row that the kernel reads together.
    pub open spec fn unit(self) -> int {
        match self {
            Kernel::Scalar => BLOCK as int,
            Kernel::Tiled => WIDTH as int,
        }
    }

    /// The number of rows that the kernel computes together.
    pub fn group_rows(self) -> (rows: usize)
        ensures
            rows == self.group(),
    {
        match self {
            Kernel::Scalar => 1,
            Kernel::Tiled => TILE,
        }
    }

    /// The number of places of a row that the kernel reads together.
    pub fn row_unit(self) -> (places: usize)
        ensures
            places == self.unit(),
    {
        match self {
            Kernel::Scalar => BLOCK,
            Kernel::Tiled => WIDTH,
        }
    }
}

/// The layout has the shape that the kernel reads for a result of `n` rows.
pub open spec fn fits(kernel: Kernel, lay: &Layout, n: int) -> bool {
    &&& lay.wf()
    &&& 0 < n <= lay.rows
    &&& lay.rows as int % kernel.group() == 0
    &&& lay.cols as int % kernel.unit() == 0
}

/// The number of rows in group `g` of a result of `n` rows.
pub open spec fn rows_of_group(kernel: Kernel, n: int, g: int) -> int {
    if n - kernel.group() * g < kernel.group() {
        n - kernel.group() * g
    } else {
        kernel.group()
    }
}

/// Group `g` of a result `r` of `n` rows: the part of `r` that holds the
/// rows of the group.
pub open spec fn group_of(r: Seq<u32>, kernel: Kernel, n: int, g: int) -> Seq<u32> {
    r.subrange(
        kernel.group() * g * n,
        kernel.group() * g * n + rows_of_group(kernel, n, g) * n,
    )
}

/// Computes group `g` of the result into `out`.
pub fn fill_group<P: Fn(u32, u32) -> u32>(
    out: &mut [u32],
    g: usize,
    kernel: Kernel,
    lay: &Layout,
    n: usize,
    plus: &P,
)
    requires
        total(plus),
        fits(kernel, lay, n as int),
        kernel.group() * g < n,
        old(out)@.len() == rows_of_group(kernel, n as int, g as int) * n,
    ensures
        final(out)@.len() == old(out)@.len(),
        rows_done(plus, lay, n as int, kernel.group() * g, final(out)@),
{
    match kernel {
        Kernel::Scalar => {
            assert(rows_of_group(kernel, n as int, g as int) == 1);
            assert(1 * n == n && 1 * g == g) by (nonlinear_arith);
            crate::scalar::fill_row(out, g, lay, n, plus)
        },
        Kernel::Tiled => crate::tiled::fill_rows(out, g, lay, n, plus),
    }
}

/// Computes the groups of the result one after the other, on the calling
/// thread: `r` is cut into pieces of `chunk` weights, the last piece being
/// what is left, and piece `g` takes group `g`.
pub fn in_turn<P: Fn(u32, u32) -> u32>(
    r: &mut [u32],
    chunk: usize,
    kernel: Kernel,
    lay: &Layout,
    n: usize,
    plus: &P,
)
    requires
        total(plus),
        fits(kernel, lay, n as int),
        old(r)@.len() == n * n,
        chunk == kernel.group() * n,
    ensures
        final(r)@.len() == old(r)@.len(),
        rows_done(plus, lay, n as int, 0, final(r)@),
{
    let ghost group = kernel.group();
    let ghost whole = final(r)@;
    let mut rest = r;
    let mut g: usize = 0;
    let ghost mut first: int = 0;
    let ghost mut filled: Seq<u32> = Seq::empty();
    while rest.len() > 0
        invariant
            total(plus),
            fits(kernel, lay, n as int),
            group == kernel.group(),
            chunk == group * n,
            0 <= first <= n,
            first == if group * g < n { group * g } else { n as int },
            g <= first,
            filled.len() == first * n,
            rest@.len() == (n - first) * n,
            whole == filled + final(rest)@,
            rows_done(plus, lay, n as int, 0, filled),
        decreases rest@.len(),
    {
        let left = rest.len();
        let take = if left < chunk {
            left
        } else {
            chunk
        };
        let ghost here = rows_of_group(kernel, n as int, g as int);
        proof {
            assert(first < n) by (nonlinear_arith)
                requires
                    (n - first) * n > 0,
                    0 < n,
                    first <= n,
            ;
            assert(0 < take == here * n && (first + here) * n == first * n + here * n && (n - first
                - here) * n == (n - first) * n - here * n && group * (g + 1) == group * g + group)
                by (nonlinear_arith)
                requires
                    0 < n,
                    left == (n - first) * n,
                    chunk == group * n,
                    take == if left < chunk { left } else { chunk },
                    0 <= first < n,
                    0 < group,
                    here == if n - first < group { n - first } else { group },
            ;
        }
        let (head, tail) = rest.split_at_mut(take);
        fill_group(head, g, kernel, lay, n, plus);
        proof {
            lemma_rows_done_join(plus, lay, n as int, 0, first, filled, head@);
            assert((filled + head@) + final(tail)@ =~= filled + (head@ + final(tail)@));
            filled = filled + head@;
            first = first + here;
        }
        rest = tail;
        g = g + 1;
    }
    proof {
        assert(filled + final(rest)@ =~= filled);
        assert(first == n) by (nonlinear_arith)
            requires
                (n - first) * n == 0,
                0 < n,
        ;
    }
}

/// Computes the groups of the result side by side, on the workers of
/// rayon's pool.
///
/// Believed without proof, of rayon's `par_chunks_mut`, `enumerate` and
/// `for_each`: the slice is handed out in pieces of `chunk` weights that lie
/// one behind the other and do not overlap, the last piece being what is
/// left; the pieces are numbered from zero in that order; the closure has
/// run once on each numbered piece when `for_each` returns, and nothing else
/// has written to the slice. The closure is one call of `fill_group`, so
/// each piece then holds what `fill_group` ensures of it.
#[verifier::external_body]
fn fan_out<P: Fn(u32, u32) -> u32 + Sync>(
    r: &mut [u32],
    chunk: usize,
    kernel: Kernel,
    lay: &Layout,
    n: usize,
    plus: &P,
)
    requires
        total(plus),
        fits(kernel, lay, n as int),
        old(r)@.len() == n * n,
        chunk == kernel.group() * n,
    ensures
        final(r)@.len() == old(r)@.len(),
        forall|g: int|
            0 <= g && kernel.group() * g < n ==> rows_done(
                plus,
                lay,
                n as int,
                kernel.group() * g,
                #[trigger] group_of(final(r)@, kernel, n as int, g),
            ),
{
    r.par_chunks_mut(chunk).enumerate().for_each(
        |(g, out)| fill_group(out, g, kernel, lay, n, plus),
    );
}

/// A result whose groups are all done is done as a whole.
pub proof fn lemma_groups_done<P: Fn(u32, u32) -> u32>(
    plus: &P,
    lay: &Layout,
    kernel: Kernel,
    n: int,
    r: Seq<u32>,
)
    requires
        0 < n,
        r.len() == n * n,
        forall|g: int|
            0 <= g && kernel.group() * g < n ==> rows_done(
                plus,
                lay,
                n,
                kernel.group() * g,
                #[trigger] group_of(r, kernel, n, g),
            ),
    ensures
        rows_done(plus, lay, n, 0, r),
{
    let group = kernel.group();
    assert forall|a: int, j: int| 0 <= a && 0 <= j < n && a * n + j < r.len() implies is_dot(
        plus,
        row(lay.direct@, lay.cols as int, 0 + a),
        row(lay.transposed@, lay.cols as int, j),
        #[trigger] entry(r, n, a, j),
    ) by {
        assert(a < n) by (nonlinear_arith)
            requires
                0 <= a,
                0 <= j,
                0 < n,
                a * n + j < n * n,
        ;
        let g = a / group;
        let b = a % group;
        vstd::arithmetic::div_mod::lemma_fundamental_div_mod(a, group);
        let here = rows_of_group(kernel, n, g);
        let part = group_of(r, kernel, n, g);
        assert(0 <= g && group * g <= a && b < here);
        assert(0 <= group * g * n && group * g * n + here * n <= n * n && group * g * n + (b * n
            + j) == a * n + j && b * n + j < here * n && 0 <= b * n) by (nonlinear_arith)
            requires
                0 <= group * g,
                a == group * g + b,
                0 <= b < here,
                group * g + here <= n,
                0 <= j < n,
        ;
        assert(rows_done(plus, lay, n, group * g, part));
        assert(entry(part, n, b, j) == entry(r, n, a, j));
    }
}

/// One step of the distance product. `d` holds the `n` by `n` matrix in
/// its first `n * n` places, row by row, and the first `n * n` places of `r`
/// take the product of the matrix with itself: entry `(i, j)` becomes the
/// least over `k` of `d[i][k]` plus `d[k][j]`, with the sums that `plus`
/// gives. What `r` held is not read, and what lies behind the result in `r`
/// is not written. `kernel` chooses how an entry is computed, and `parallel`
/// whether the groups of rows are computed side by side or one after the
/// other; neither changes what is written.
///
/// The working copies of the matrix are padded by up to eight rows and
/// columns, and their places must be addressable: that is the bound on `n`.
/// `plus` must accept any two weights and give, for positive infinity and
/// positive infinity, a weight that cannot lower a minimum.
pub fn step<P: Fn(u32, u32) -> u32 + Sync>(
    r: &mut [u32],
    d: &[u32],
    n: usize,
    plus: &P,
    kernel: Kernel,
    parallel: bool,
)
    requires
        n * n <= d@.len(),
        n * n <= old(r)@.len(),
        (n + 8) * (n + 8) <= usize::MAX,
        total(plus),
        keeps_unreachable(plus),
    ensures
        final(r)@.len() == old(r)@.len(),
        is_product(plus, d@.take(n * n), n as int, final(r)@.take(n * n)),
        final(r)@.skip(n * n) == old(r)@.skip(n * n),
        n == 0 ==> final(r)@ == old(r)@,
{
    if n == 0 {
        assert(r@.skip(0) =~= r@);
        return ;
    }
    let group = kernel.group_rows();
    let unit = kernel.row_unit();
    proof {
        assert((n + group) * (n + unit) <= (n + 8) * (n + 8) && group * n <= n * n + 8 * n <= (n
            + 8) * (n + 8) && 0 <= n * n <= (n + 8) * (n + 8)) by (nonlinear_arith)
            requires
                0 < group <= 8,
                0 < unit <= 8,
                0 < n,
        ;
        lemma_padded_len(n as int, group as int);
        lemma_padded_len(n as int, unit as int);
    }
    let matrix = vstd::slice::slice_subrange(d, 0, n * n);
    let lay = preprocess(matrix, n, group, unit);
    let ghost kept = r@.skip(n * n);
    let (cells, beyond) = r.split_at_mut(n * n);
    if parallel {
        fan_out(cells, group * n, kernel, &lay, n, plus);
        proof {
            lemma_groups_done(plus, &lay, kernel, n as int, cells@);
        }
    } else {
        in_turn(cells, group * n, kernel, &lay, n, plus);
    }
    proof {
        lemma_rows_done_is_product(plus, &lay, matrix@, n as int, cells@);
        assert((cells@ + beyond@).take(n * n) =~= cells@);
        assert((cells@ + beyond@).skip(n * n) =~= beyond@);
        assert(beyond@ =~= kept);
    }
}

} // verus!
