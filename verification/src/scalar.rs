//! The kernel that keeps a block of independent running minima.
use crate::layout::{lemma_row_is_part, rows_done, Layout};
use crate::product::{entry, is_dot, row, sums_of, total};
use crate::weight::{horizontal_min, least_in, least_of, min, UNREACHABLE};
use crate::weight::{lemma_least_is_unique, lemma_least_in_push, lemma_least_of_is_least, lemma_least_of_lanes};
use vstd::prelude::*;

verus! {

/// The number of running minima.
pub const BLOCK: usize = 4;

/// The least sum of the rows `a` and `b`. Running minimum `l` takes the
/// places `k` with `k % BLOCK == l`; no minimum is read while another is
/// written. At the end the minima are reduced to one.
pub fn dot<P: Fn(u32, u32) -> u32>(a: &[u32], b: &[u32], plus: &P) -> (v: u32)
    requires
        total(plus),
        a@.len() == b@.len(),
        a@.len() % (BLOCK as nat) == 0,
    ensures
        is_dot(plus, a@, b@, v),
{
    let blocks = a.len() / BLOCK;
    let mut block: [u32; 4] = [UNREACHABLE; 4];
    let ghost mut legs: Seq<u32> = Seq::empty();
    let mut at: usize = 0;
    let mut done: usize = 0;
    while done < blocks
        invariant
            total(plus),
            a@.len() == b@.len(),
            blocks * 4 == a@.len(),
            done <= blocks,
            at == done * 4,
            legs.len() == at,
            sums_of(plus, a@.take(at as int), b@.take(at as int), legs),
            forall|l: int| 0 <= l < 4 ==> least_in(#[trigger] block@[l], legs, 4, l),
        decreases blocks - done,
    {
        let mut k: usize = 0;
        while k < BLOCK
            invariant
                total(plus),
                a@.len() == b@.len(),
                blocks * 4 == a@.len(),
                done < blocks,
                k <= 4,
                at == done * 4 + k,
                legs.len() == at,
                sums_of(plus, a@.take(at as int), b@.take(at as int), legs),
                forall|l: int| 0 <= l < 4 ==> least_in(#[trigger] block@[l], legs, 4, l),
            decreases 4 - k,
        {
            let z = plus(a[at], b[at]);
            let w = min(block[k], z);
            proof {
                assert(at as int % 4 == k);
                assert forall|l: int| 0 <= l < 4 implies least_in(
                    if l == k {
                        w
                    } else {
                        block@[l]
                    },
                    legs.push(z),
                    4,
                    l,
                ) by {
                    lemma_least_in_push(block@[l], legs, 4, l, z);
                }
                assert(a@.take(at + 1) =~= a@.take(at as int).push(a@[at as int]));
                assert(b@.take(at + 1) =~= b@.take(at as int).push(b@[at as int]));
                legs = legs.push(z);
            }
            block[k] = w;
            k += 1;
            at += 1;
        }
        done += 1;
    }
    let v = horizontal_min(block.as_slice());
    proof {
        assert(a@.take(at as int) =~= a@);
        assert(b@.take(at as int) =~= b@);
        lemma_least_of_is_least(block@);
        lemma_least_of_lanes(v, block@, legs);
        lemma_least_of_is_least(legs);
        lemma_least_is_unique(v, least_of(legs), legs);
    }
    v
}

/// Computes row `i` of the result into `out`, entry by entry.
pub fn fill_row<P: Fn(u32, u32) -> u32>(out: &mut [u32], i: usize, lay: &Layout, n: usize, plus: &P)
    requires
        total(plus),
        lay.wf(),
        i < n <= lay.rows,
        lay.cols % BLOCK == 0,
        old(out)@.len() == n,
    ensures
        final(out)@.len() == n,
        rows_done(plus, lay, n as int, i as int, final(out)@),
{
    let cols = lay.cols;
    let size = lay.direct.len();
    proof {
        lemma_row_is_part(lay.direct@, lay.rows as int, cols as int, i as int);
    }
    let a = vstd::slice::slice_subrange(lay.direct.as_slice(), i * cols, i * cols + cols);
    let mut j: usize = 0;
    while j < n
        invariant
            total(plus),
            lay.wf(),
            i < n <= lay.rows,
            cols == lay.cols,
            cols % BLOCK == 0,
            size == lay.rows * cols,
            j <= n,
            out@.len() == n,
            a@ == row(lay.direct@, cols as int, i as int),
            forall|c: int|
                0 <= c < j ==> is_dot(
                    plus,
                    row(lay.direct@, cols as int, i as int),
                    row(lay.transposed@, cols as int, c),
                    #[trigger] out@[c],
                ),
        decreases n - j,
    {
        proof {
            lemma_row_is_part(lay.transposed@, lay.rows as int, cols as int, j as int);
        }
        let b = vstd::slice::slice_subrange(lay.transposed.as_slice(), j * cols, j * cols + cols);
        let v = dot(a, b, plus);
        out[j] = v;
        j += 1;
    }
    proof {
        assert forall|a: int, c: int| 0 <= a && 0 <= c < n && a * n + c < out@.len() implies is_dot(
            plus,
            row(lay.direct@, lay.cols as int, i + a),
            row(lay.transposed@, lay.cols as int, c),
            #[trigger] entry(out@, n as int, a, c),
        ) by {
            assert(a == 0) by (nonlinear_arith)
                requires
                    0 <= a,
                    0 <= c,
                    a * n + c < n,
            ;
        }
    }
}

} // verus!
