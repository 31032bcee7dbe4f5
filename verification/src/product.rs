//! What one step of the distance product is.
//!
//! The sum of two weights is not computed here: the caller hands in the
//! operation `plus`, and every statement below speaks of the weights that
//! `plus` gives.
use crate::weight::{is_inert, is_nan, least_of, rank, same_weight, UNREACHABLE, ZERO};
use crate::weight::{lemma_least_of_inert_tail, lemma_least_of_is_least, lemma_least_of_same_weights};
use vstd::prelude::*;

verus! {

/// The entry in row `i` and column `j` of a row-major matrix with `n`
/// columns.
pub open spec fn entry(m: Seq<u32>, n: int, i: int, j: int) -> u32 {
    m[i * n + j]
}

/// Row `i` of a row-major matrix with `n` columns.
pub open spec fn row(m: Seq<u32>, n: int, i: int) -> Seq<u32> {
    Seq::new(n as nat, |k: int| entry(m, n, i, k))
}

/// Column `j` of a row-major matrix with `n` rows and `n` columns.
pub open spec fn column(m: Seq<u32>, n: int, j: int) -> Seq<u32> {
    Seq::new(n as nat, |k: int| entry(m, n, k, j))
}

/// `plus` may be called on any two weights.
pub open spec fn total<P: Fn(u32, u32) -> u32>(plus: &P) -> bool {
    forall|x: u32, y: u32| #[trigger] call_requires(plus, (x, y))
}

/// Two missing paths joined are a missing path: whatever `plus` gives for
/// positive infinity and positive infinity cannot lower a minimum.
pub open spec fn keeps_unreachable<P: Fn(u32, u32) -> u32>(plus: &P) -> bool {
    forall|s: u32| #[trigger] call_ensures(plus, (UNREACHABLE, UNREACHABLE), s) ==> is_inert(s)
}

/// `plus` gives one weight for each two weights.
pub open spec fn single_valued<P: Fn(u32, u32) -> u32>(plus: &P) -> bool {
    forall|x: u32, y: u32, s: u32, t: u32|
        #[trigger] call_ensures(plus, (x, y), s) && #[trigger] call_ensures(plus, (x, y), t)
            ==> same_weight(s, t)
}

/// `legs[k]` is a weight that `plus` gives for `a[k]` and `b[k]`, for every
/// place `k` of `a`.
pub open spec fn sums_of<P: Fn(u32, u32) -> u32>(
    plus: &P,
    a: Seq<u32>,
    b: Seq<u32>,
    legs: Seq<u32>,
) -> bool {
    &&& legs.len() == a.len()
    &&& forall|k: int| 0 <= k < a.len() ==> call_ensures(plus, (a[k], b[k]), #[trigger] legs[k])
}

/// `v` is the least of the sums of `a` and `b`, place by place; positive
/// infinity where there is none.
pub open spec fn is_dot<P: Fn(u32, u32) -> u32>(plus: &P, a: Seq<u32>, b: Seq<u32>, v: u32) -> bool {
    exists|legs: Seq<u32>| #[trigger] sums_of(plus, a, b, legs) && v == least_of(legs)
}

/// `v` is the least weight of a path from `i` to `j` in two steps: the least
/// over `k` of `d[i][k]` plus `d[k][j]`.
pub open spec fn is_shortest<P: Fn(u32, u32) -> u32>(
    plus: &P,
    d: Seq<u32>,
    n: int,
    i: int,
    j: int,
    v: u32,
) -> bool {
    is_dot(plus, row(d, n, i), column(d, n, j), v)
}

/// `r` is the distance product of the `n` by `n` matrix `d` with itself.
pub open spec fn is_product<P: Fn(u32, u32) -> u32>(
    plus: &P,
    d: Seq<u32>,
    n: int,
    r: Seq<u32>,
) -> bool {
    &&& r.len() == n * n
    &&& forall|i: int, j: int|
        0 <= i < n && 0 <= j < n ==> is_shortest(plus, d, n, i, j, #[trigger] entry(r, n, i, j))
}

/// The place of entry `(i, j)` lies in the matrix, and no other entry has it.
pub proof fn lemma_entry_place(rows: int, cols: int, i: int, j: int)
    requires
        0 <= i < rows,
        0 <= j < cols,
    ensures
        0 <= i * cols + j < rows * cols,
        (i * cols + j) / cols == i,
        (i * cols + j) % cols == j,
{
    assert(i * cols + j < rows * cols) by (nonlinear_arith)
        requires
            0 <= i < rows,
            0 <= j < cols,
    ;
    assert(0 <= i * cols) by (nonlinear_arith)
        requires
            0 <= i,
            0 < cols,
    ;
    vstd::arithmetic::div_mod::lemma_fundamental_div_mod_converse(i * cols + j, cols, i, j);
}

/// A least sum is a number: positive infinity, or one of the sums.
pub proof fn lemma_dot_is_a_sum<P: Fn(u32, u32) -> u32>(plus: &P, a: Seq<u32>, b: Seq<u32>, v: u32)
    requires
        is_dot(plus, a, b, v),
    ensures
        !is_nan(v),
        v == UNREACHABLE || exists|k: int|
            0 <= k < a.len() && #[trigger] call_ensures(plus, (a[k], b[k]), v),
{
    let legs = choose|legs: Seq<u32>| #[trigger] sums_of(plus, a, b, legs) && v == least_of(legs);
    lemma_least_of_is_least(legs);
    if v != UNREACHABLE {
        let k = choose|k: int| 0 <= k < legs.len() && k % 1 == 0 && #[trigger] legs[k] == v;
        assert(call_ensures(plus, (a[k], b[k]), legs[k]));
    }
}

/// Where `plus` gives one weight for each two weights, no sum that is a
/// number ranks below the least sum.
pub proof fn lemma_dot_is_least<P: Fn(u32, u32) -> u32>(
    plus: &P,
    a: Seq<u32>,
    b: Seq<u32>,
    v: u32,
    k: int,
    s: u32,
)
    requires
        single_valued(plus),
        is_dot(plus, a, b, v),
        0 <= k < a.len(),
        call_ensures(plus, (a[k], b[k]), s),
        !is_nan(s),
    ensures
        rank(v) <= rank(s),
{
    let legs = choose|legs: Seq<u32>| #[trigger] sums_of(plus, a, b, legs) && v == least_of(legs);
    lemma_least_of_is_least(legs);
    assert(call_ensures(plus, (a[k], b[k]), legs[k]));
    assert(same_weight(s, legs[k]));
    assert(k % 1 == 0);
}

/// Where `plus` gives one weight for each two weights, the least sum of two
/// rows is one weight.
pub proof fn lemma_dot_is_unique<P: Fn(u32, u32) -> u32>(
    plus: &P,
    a: Seq<u32>,
    b: Seq<u32>,
    v: u32,
    w: u32,
)
    requires
        single_valued(plus),
        is_dot(plus, a, b, v),
        is_dot(plus, a, b, w),
    ensures
        v == w,
{
    let s = choose|legs: Seq<u32>| #[trigger] sums_of(plus, a, b, legs) && v == least_of(legs);
    let t = choose|legs: Seq<u32>| #[trigger] sums_of(plus, a, b, legs) && w == least_of(legs);
    assert forall|k: int| 0 <= k < s.len() implies same_weight(#[trigger] s[k], t[k]) by {
        assert(call_ensures(plus, (a[k], b[k]), s[k]));
        assert(call_ensures(plus, (a[k], b[k]), t[k]));
    }
    lemma_least_of_same_weights(s, t);
}

/// Places at the end of two rows that both hold positive infinity may be
/// left out of their least sum.
pub proof fn lemma_dot_without_padding<P: Fn(u32, u32) -> u32>(
    plus: &P,
    a: Seq<u32>,
    b: Seq<u32>,
    n: int,
    v: u32,
)
    requires
        keeps_unreachable(plus),
        a.len() == b.len(),
        0 <= n <= a.len(),
        forall|k: int| n <= k < a.len() ==> a[k] == UNREACHABLE && b[k] == UNREACHABLE,
        is_dot(plus, a, b, v),
    ensures
        is_dot(plus, a.take(n), b.take(n), v),
{
    let legs = choose|legs: Seq<u32>| #[trigger] sums_of(plus, a, b, legs) && v == least_of(legs);
    assert forall|k: int| n <= k < legs.len() implies is_inert(#[trigger] legs[k]) by {
        assert(call_ensures(plus, (a[k], b[k]), legs[k]));
    }
    lemma_least_of_inert_tail(legs, n);
    let short = legs.take(n);
    assert forall|k: int| 0 <= k < n implies call_ensures(
        plus,
        (a.take(n)[k], b.take(n)[k]),
        #[trigger] short[k],
    ) by {
        assert(call_ensures(plus, (a[k], b[k]), legs[k]));
    }
    assert(sums_of(plus, a.take(n), b.take(n), short));
}

/// Where `plus` gives one weight for each two weights, a matrix has one
/// product: whichever kernel computed it, and whether side by side or one
/// row after the other, the same weights were written.
pub proof fn lemma_product_is_unique<P: Fn(u32, u32) -> u32>(
    plus: &P,
    d: Seq<u32>,
    n: int,
    r: Seq<u32>,
    s: Seq<u32>,
)
    requires
        0 <= n,
        single_valued(plus),
        is_product(plus, d, n, r),
        is_product(plus, d, n, s),
    ensures
        r == s,
{
    assert forall|p: int| 0 <= p < r.len() implies r[p] == s[p] by {
        let i = p / n;
        let j = p % n;
        assert(n > 0) by (nonlinear_arith)
            requires
                0 <= p < n * n,
                0 <= n,
        ;
        vstd::arithmetic::div_mod::lemma_fundamental_div_mod(p, n);
        assert(n * i == i * n) by (nonlinear_arith);
        assert(0 <= i < n) by (nonlinear_arith)
            requires
                0 <= p < n * n,
                p == i * n + j,
                0 <= j < n,
        ;
        assert(r[p] == entry(r, n, i, j));
        assert(s[p] == entry(s, n, i, j));
        lemma_dot_is_unique(plus, row(d, n, i), column(d, n, j), r[p], s[p]);
    }
    assert(r =~= s);
}

/// The matrix with zero on the diagonal and positive infinity elsewhere.
pub open spec fn is_identity(d: Seq<u32>, n: int) -> bool {
    &&& d.len() == n * n
    &&& forall|i: int, j: int|
        0 <= i < n && 0 <= j < n ==> #[trigger] entry(d, n, i, j) == if i == j {
            ZERO
        } else {
            UNREACHABLE
        }
}

/// Zero added to zero is zero, and zero added to positive infinity, from
/// either side, is positive infinity.
pub open spec fn zero_adds_nothing<P: Fn(u32, u32) -> u32>(plus: &P) -> bool {
    &&& forall|s: u32| #[trigger] call_ensures(plus, (ZERO, ZERO), s) ==> s == ZERO
    &&& forall|s: u32| #[trigger] call_ensures(plus, (ZERO, UNREACHABLE), s) ==> s == UNREACHABLE
    &&& forall|s: u32| #[trigger] call_ensures(plus, (UNREACHABLE, ZERO), s) ==> s == UNREACHABLE
}

/// Where no vertex reaches another, a step finds no path: the product of
/// the matrix with zero on the diagonal and positive infinity elsewhere is
/// that matrix.
pub proof fn lemma_identity_is_kept<P: Fn(u32, u32) -> u32>(
    plus: &P,
    d: Seq<u32>,
    n: int,
    r: Seq<u32>,
)
    requires
        0 <= n,
        keeps_unreachable(plus),
        zero_adds_nothing(plus),
        is_identity(d, n),
        is_product(plus, d, n, r),
    ensures
        r == d,
{
    assert forall|p: int| 0 <= p < r.len() implies r[p] == d[p] by {
        let i = p / n;
        let j = p % n;
        assert(n > 0) by (nonlinear_arith)
            requires
                0 <= p < n * n,
                0 <= n,
        ;
        vstd::arithmetic::div_mod::lemma_fundamental_div_mod(p, n);
        assert(n * i == i * n) by (nonlinear_arith);
        assert(0 <= i < n) by (nonlinear_arith)
            requires
                0 <= p < n * n,
                p == i * n + j,
                0 <= j < n,
        ;
        let v = entry(r, n, i, j);
        assert(r[p] == v);
        assert(d[p] == entry(d, n, i, j));
        let a = row(d, n, i);
        let b = column(d, n, j);
        assert(is_shortest(plus, d, n, i, j, v));
        let legs = choose|legs: Seq<u32>| #[trigger] sums_of(plus, a, b, legs) && v == least_of(legs);
        assert forall|k: int| 0 <= k < n implies (if i == j && k == i {
            legs[k] == ZERO
        } else {
            is_inert(#[trigger] legs[k])
        }) by {
            assert(call_ensures(plus, (a[k], b[k]), legs[k]));
            assert(a[k] == entry(d, n, i, k));
            assert(b[k] == entry(d, n, k, j));
        }
        if i == j {
            lemma_least_of_is_least(legs);
            assert(i % 1 == 0);
            assert(rank(v) <= rank(legs[i]));
            if v != UNREACHABLE {
                let k = choose|k: int| 0 <= k < legs.len() && k % 1 == 0 && #[trigger] legs[k] == v;
                assert(k == i);
            }
        } else {
            lemma_least_of_inert_tail(legs, 0);
            assert(legs.take(0) =~= Seq::<u32>::empty());
        }
    }
    assert(r =~= d);
}

/// `e` is the `m` by `m` matrix that holds the `n` by `n` matrix `d` in its
/// first rows and columns, and positive infinity in the rows and columns
/// that were added.
pub open spec fn is_extension(e: Seq<u32>, m: int, d: Seq<u32>, n: int) -> bool {
    &&& 0 <= n <= m
    &&& e.len() == m * m
    &&& d.len() == n * n
    &&& forall|i: int, j: int|
        0 <= i < m && 0 <= j < m ==> #[trigger] entry(e, m, i, j) == if i < n && j < n {
            entry(d, n, i, j)
        } else {
            UNREACHABLE
        }
}

/// Rows and columns of positive infinity added to a matrix leave the
/// entries of its product as they are: an entry of the product of the
/// larger matrix, at a place of the smaller one, is that entry of the
/// product of the smaller one.
pub proof fn lemma_extension_keeps_entries<P: Fn(u32, u32) -> u32>(
    plus: &P,
    d: Seq<u32>,
    n: int,
    e: Seq<u32>,
    m: int,
    s: Seq<u32>,
)
    requires
        keeps_unreachable(plus),
        is_extension(e, m, d, n),
        is_product(plus, e, m, s),
    ensures
        forall|i: int, j: int|
            0 <= i < n && 0 <= j < n ==> is_shortest(plus, d, n, i, j, #[trigger] entry(s, m, i, j)),
{
    assert forall|i: int, j: int| 0 <= i < n && 0 <= j < n implies is_shortest(
        plus,
        d,
        n,
        i,
        j,
        #[trigger] entry(s, m, i, j),
    ) by {
        let a = row(e, m, i);
        let b = column(e, m, j);
        assert(is_shortest(plus, e, m, i, j, entry(s, m, i, j)));
        assert forall|k: int| n <= k < a.len() implies a[k] == UNREACHABLE && b[k] == UNREACHABLE by {
            assert(a[k] == entry(e, m, i, k));
            assert(b[k] == entry(e, m, k, j));
        }
        lemma_dot_without_padding(plus, a, b, n, entry(s, m, i, j));
        assert forall|k: int| 0 <= k < n implies a.take(n)[k] == row(d, n, i)[k] && b.take(n)[k]
            == column(d, n, j)[k] by {
            assert(a[k] == entry(e, m, i, k));
            assert(b[k] == entry(e, m, k, j));
        }
        assert(a.take(n) =~= row(d, n, i));
        assert(b.take(n) =~= column(d, n, j));
    }
}

/// Where `plus` gives one weight for each two weights, the product of a
/// matrix and the product of the matrix with rows and columns of positive
/// infinity added hold the same weight at every place of the smaller one.
pub proof fn lemma_extension_keeps_product<P: Fn(u32, u32) -> u32>(
    plus: &P,
    d: Seq<u32>,
    n: int,
    r: Seq<u32>,
    e: Seq<u32>,
    m: int,
    s: Seq<u32>,
)
    requires
        single_valued(plus),
        keeps_unreachable(plus),
        is_extension(e, m, d, n),
        is_product(plus, d, n, r),
        is_product(plus, e, m, s),
    ensures
        forall|i: int, j: int|
            0 <= i < n && 0 <= j < n ==> #[trigger] entry(s, m, i, j) == entry(r, n, i, j),
{
    lemma_extension_keeps_entries(plus, d, n, e, m, s);
    assert forall|i: int, j: int| 0 <= i < n && 0 <= j < n implies #[trigger] entry(s, m, i, j)
        == entry(r, n, i, j) by {
        assert(is_shortest(plus, d, n, i, j, entry(s, m, i, j)));
        assert(is_shortest(plus, d, n, i, j, entry(r, n, i, j)));
        lemma_dot_is_unique(plus, row(d, n, i), column(d, n, j), entry(s, m, i, j), entry(r, n, i, j));
    }
}

} // verus!
