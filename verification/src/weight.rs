//! Path weights.
//!
//! A weight is a single-precision number in the binary32 interchange format,
//! held as its 32-bit pattern. Positive infinity stands for "no path". The
//! order of the numbers is read off the patterns; a pattern that is not a
//! number never takes part in a minimum.
use vstd::arithmetic::power2::{lemma_pow2_pos, lemma_pow2_strictly_increases, lemma_pow2_unfold, pow2};
use vstd::prelude::*;

verus! {

/// Positive infinity: the weight of a path that does not exist.
pub const UNREACHABLE: u32 = 0x7f80_0000;

/// The weight zero.
pub const ZERO: u32 = 0;

/// The pattern encodes no number.
pub open spec fn is_nan(w: u32) -> bool {
    (0x7f80_0000 < w && w < 0x8000_0000) || 0xff80_0000 < w
}

/// The place of a weight in the order of the numbers: `a` is below `b`
/// exactly when `rank(a) < rank(b)`. Negative zero ranks just below zero, so
/// that two numbers of one rank have one pattern.
pub open spec fn rank(w: u32) -> int {
    if w < 0x8000_0000 {
        w as int
    } else {
        0x7fff_ffff - w
    }
}

/// The sign of the pattern is set.
pub open spec fn is_negative(w: u32) -> bool {
    w >= 0x8000_0000
}

/// The exponent field of the pattern.
pub open spec fn exponent(w: u32) -> int {
    (w as int / 0x80_0000) % 0x100
}

/// The fraction field of the pattern.
pub open spec fn fraction(w: u32) -> int {
    w as int % 0x80_0000
}

/// The number that a pattern encodes, counted in units of the least
/// positive number, two to the power of -149. An infinity counts as the
/// power of two that follows the greatest number.
pub open spec fn value(w: u32) -> int {
    let magnitude = if exponent(w) == 0 {
        fraction(w)
    } else {
        (0x80_0000 + fraction(w)) * pow2((exponent(w) - 1) as nat)
    };
    if is_negative(w) {
        -magnitude
    } else {
        magnitude
    }
}

/// The lesser of two weights. A pattern that is no number loses against a
/// number; of two equal weights the first is kept.
pub open spec fn lesser(a: u32, b: u32) -> u32 {
    if is_nan(b) {
        a
    } else if is_nan(a) {
        b
    } else if rank(b) < rank(a) {
        b
    } else {
        a
    }
}

/// The least of `UNREACHABLE` and the weights of `legs`, taken from left to
/// right.
pub open spec fn least_of(legs: Seq<u32>) -> u32
    decreases legs.len(),
{
    if legs.len() == 0 {
        UNREACHABLE
    } else {
        lesser(least_of(legs.drop_last()), legs.last())
    }
}

/// `v` is the least weight among `UNREACHABLE` and those `legs[k]` with
/// `k % stride == lane`: it is a number, it is one of them, and none of them
/// that is a number ranks below it.
pub open spec fn least_in(v: u32, legs: Seq<u32>, stride: int, lane: int) -> bool {
    &&& !is_nan(v)
    &&& (v == UNREACHABLE || exists|k: int|
        0 <= k < legs.len() && k % stride == lane && #[trigger] legs[k] == v)
    &&& forall|k: int|
        0 <= k < legs.len() && k % stride == lane && !is_nan(#[trigger] legs[k]) ==> rank(v)
            <= rank(legs[k])
}

/// Two patterns weigh the same: they are one pattern, or neither is a number.
pub open spec fn same_weight(a: u32, b: u32) -> bool {
    a == b || (is_nan(a) && is_nan(b))
}

/// A weight that cannot lower a minimum: positive infinity, or no number.
pub open spec fn is_inert(w: u32) -> bool {
    w == UNREACHABLE || is_nan(w)
}

/// Whether the pattern encodes a number.
pub fn is_number(w: u32) -> (b: bool)
    ensures
        b == !is_nan(w),
{
    w <= 0x7f80_0000 || (0x8000_0000 <= w && w <= 0xff80_0000)
}

/// The place of a weight in the order of the numbers.
pub fn rank_of(w: u32) -> (k: i64)
    ensures
        k == rank(w),
{
    if w < 0x8000_0000 {
        w as i64
    } else {
        0x7fff_ffff - (w as i64)
    }
}

/// The lesser of two weights.
pub fn min(a: u32, b: u32) -> (w: u32)
    ensures
        w == lesser(a, b),
{
    if !is_number(b) {
        a
    } else if !is_number(a) {
        b
    } else if rank_of(b) < rank_of(a) {
        b
    } else {
        a
    }
}

/// The least of `UNREACHABLE` and the weights in `lanes`, by minima of two
/// taken in turn.
pub fn horizontal_min(lanes: &[u32]) -> (v: u32)
    ensures
        v == least_of(lanes@),
{
    let mut v: u32 = UNREACHABLE;
    let mut l: usize = 0;
    while l < lanes.len()
        invariant
            l <= lanes@.len(),
            v == least_of(lanes@.take(l as int)),
        decreases lanes@.len() - l,
    {
        assert(lanes@.take(l + 1).drop_last() =~= lanes@.take(l as int));
        v = min(v, lanes[l]);
        l += 1;
    }
    assert(lanes@.take(l as int) =~= lanes@);
    v
}

/// Among the patterns without sign, the greater pattern encodes the greater
/// number.
proof fn lemma_value_increases(a: u32, b: u32)
    requires
        a < b < 0x8000_0000,
    ensures
        0 <= value(a) < value(b),
{
    let ea = exponent(a);
    let eb = exponent(b);
    let fa = fraction(a);
    let fb = fraction(b);
    assert(a == ea * 0x80_0000 + fa && b == eb * 0x80_0000 + fb);
    assert(0 <= ea <= eb < 0x100);
    if ea > 0 {
        lemma_pow2_pos((ea - 1) as nat);
    }
    lemma_pow2_pos((eb - 1) as nat);
    let pa = pow2((ea - 1) as nat) as int;
    let pb = pow2((eb - 1) as nat) as int;
    if ea == eb {
        if ea > 0 {
            assert(0 <= (0x80_0000 + fa) * pa < (0x80_0000 + fb) * pa) by (nonlinear_arith)
                requires
                    0 <= fa < fb,
                    0 < pa,
            ;
        }
    } else if ea == 0 {
        assert(0x80_0000 <= (0x80_0000 + fb) * pb) by (nonlinear_arith)
            requires
                0 <= fb,
                1 <= pb,
        ;
    } else {
        lemma_pow2_unfold(ea as nat);
        if ea < eb - 1 {
            lemma_pow2_strictly_increases(ea as nat, (eb - 1) as nat);
        }
        assert(0 <= (0x80_0000 + fa) * pa < (0x80_0000 + fb) * pb) by (nonlinear_arith)
            requires
                0 <= fa < 0x80_0000,
                0 <= fb,
                0 < pa,
                2 * pa <= pb,
        ;
    }
}

/// The rank orders the patterns as the numbers that they encode: the lesser
/// number has the lower rank, and a lower rank never has the greater number.
/// Only the two zeros are one number with two ranks.
pub proof fn lemma_rank_is_the_order_of_numbers(a: u32, b: u32)
    requires
        !is_nan(a),
        !is_nan(b),
    ensures
        value(a) < value(b) ==> rank(a) < rank(b),
        rank(a) < rank(b) ==> value(a) <= value(b),
        rank(a) < rank(b) && value(a) == value(b) ==> a == 0x8000_0000 && b == ZERO,
{
    let x: u32 = if is_negative(a) { (a - 0x8000_0000) as u32 } else { a };
    let y: u32 = if is_negative(b) { (b - 0x8000_0000) as u32 } else { b };
    assert(exponent(x) == exponent(a) && fraction(x) == fraction(a));
    assert(exponent(y) == exponent(b) && fraction(y) == fraction(b));
    if x < y {
        lemma_value_increases(x, y);
    } else if y < x {
        lemma_value_increases(y, x);
    }
    assert(value(0) == 0);
    if 0 < x {
        lemma_value_increases(0, x);
    }
    if 0 < y {
        lemma_value_increases(0, y);
    }
}

/// No number ranks above positive infinity, and two numbers of one rank are
/// one pattern.
pub proof fn lemma_rank_orders_numbers(a: u32, b: u32)
    requires
        !is_nan(a),
        !is_nan(b),
    ensures
        rank(a) <= rank(UNREACHABLE),
        rank(a) == rank(b) ==> a == b,
{
}

/// Taking one more leg into a minimum over a lane: the minimum is lowered by
/// the leg where the leg falls into the lane, and stays where it does not.
pub proof fn lemma_least_in_push(v: u32, legs: Seq<u32>, stride: int, lane: int, s: u32)
    requires
        least_in(v, legs, stride, lane),
    ensures
        (legs.len() as int) % stride == lane ==> least_in(lesser(v, s), legs.push(s), stride, lane),
        (legs.len() as int) % stride != lane ==> least_in(v, legs.push(s), stride, lane),
{
    let more = legs.push(s);
    let n = legs.len() as int;
    assert forall|k: int| 0 <= k < n implies #[trigger] more[k] == legs[k] by {}
    assert(more[n] == s);
    if v != UNREACHABLE {
        let k = choose|k: int| 0 <= k < legs.len() && k % stride == lane && #[trigger] legs[k] == v;
        assert(more[k] == v);
    }
    if n % stride == lane {
        let w = lesser(v, s);
        if w != v {
            assert(more[n] == w);
        }
        assert forall|k: int|
            0 <= k < more.len() && k % stride == lane && !is_nan(#[trigger] more[k]) implies rank(w)
            <= rank(more[k]) by {
            if k < n {
                assert(more[k] == legs[k]);
            }
        }
    } else {
        assert forall|k: int|
            0 <= k < more.len() && k % stride == lane && !is_nan(#[trigger] more[k]) implies rank(v)
            <= rank(more[k]) by {
            if k < n {
                assert(more[k] == legs[k]);
            }
        }
    }
}

/// Taking one more leg into each of the minima over all the lanes at once:
/// every minimum is lowered by the leg that falls into its lane.
pub proof fn lemma_least_in_extend(acc: Seq<u32>, legs: Seq<u32>, more: Seq<u32>, out: Seq<u32>)
    requires
        more.len() > 0,
        acc.len() == more.len(),
        out.len() == more.len(),
        (legs.len() as int) % (more.len() as int) == 0,
        forall|l: int| 0 <= l < acc.len() ==> least_in(#[trigger] acc[l], legs, more.len() as int, l),
        forall|l: int| 0 <= l < out.len() ==> #[trigger] out[l] == lesser(acc[l], more[l]),
    ensures
        forall|l: int|
            0 <= l < out.len() ==> least_in(#[trigger] out[l], legs + more, more.len() as int, l),
{
    let m = more.len() as int;
    let n = legs.len() as int;
    let all = legs + more;
    vstd::arithmetic::div_mod::lemma_fundamental_div_mod(n, m);
    assert forall|l: int| 0 <= l < out.len() implies least_in(#[trigger] out[l], all, m, l) by {
        assert(least_in(acc[l], legs, m, l));
        assert(out[l] == lesser(acc[l], more[l]));
        assert((n / m) * m == m * (n / m)) by (nonlinear_arith);
        vstd::arithmetic::div_mod::lemma_fundamental_div_mod_converse(n + l, m, n / m, l);
        assert(all[n + l] == more[l]);
        if out[l] != UNREACHABLE && out[l] == acc[l] {
            let k = choose|k: int| 0 <= k < legs.len() && k % m == l && #[trigger] legs[k] == acc[l];
            assert(all[k] == out[l]);
        }
        assert forall|k: int|
            0 <= k < all.len() && k % m == l && !is_nan(#[trigger] all[k]) implies rank(out[l])
            <= rank(all[k]) by {
            if k < n {
                assert(all[k] == legs[k]);
            } else {
                vstd::arithmetic::div_mod::lemma_fundamental_div_mod_converse(k, m, n / m, k - n);
                assert(all[k] == more[k - n]);
            }
        }
    }
}

/// The minimum taken from left to right is the least of all the legs.
pub proof fn lemma_least_of_is_least(legs: Seq<u32>)
    ensures
        least_in(least_of(legs), legs, 1, 0),
    decreases legs.len(),
{
    if legs.len() > 0 {
        let front = legs.drop_last();
        lemma_least_of_is_least(front);
        lemma_least_in_push(least_of(front), front, 1, 0, legs.last());
        assert(front.push(legs.last()) =~= legs);
        assert((front.len() as int) % 1 == 0);
    }
}

/// Only one weight is the least of all the legs.
pub proof fn lemma_least_is_unique(v: u32, w: u32, legs: Seq<u32>)
    requires
        least_in(v, legs, 1, 0),
        least_in(w, legs, 1, 0),
    ensures
        v == w,
{
    lemma_rank_orders_numbers(v, w);
    lemma_rank_orders_numbers(w, v);
    assert(rank(w) <= rank(v)) by {
        if v != UNREACHABLE {
            let k = choose|k: int| 0 <= k < legs.len() && k % 1 == 0 && #[trigger] legs[k] == v;
            assert(!is_nan(legs[k]));
        }
    }
    assert(rank(v) <= rank(w)) by {
        if w != UNREACHABLE {
            let k = choose|k: int| 0 <= k < legs.len() && k % 1 == 0 && #[trigger] legs[k] == w;
            assert(!is_nan(legs[k]));
        }
    }
}

/// The least of the minima of all the lanes is the least of all the legs.
pub proof fn lemma_least_of_lanes(v: u32, lanes: Seq<u32>, legs: Seq<u32>)
    requires
        lanes.len() > 0,
        forall|l: int| 0 <= l < lanes.len() ==> least_in(#[trigger] lanes[l], legs, lanes.len() as int, l),
        least_in(v, lanes, 1, 0),
    ensures
        least_in(v, legs, 1, 0),
{
    let m = lanes.len() as int;
    if v != UNREACHABLE {
        let l = choose|l: int| 0 <= l < lanes.len() && l % 1 == 0 && #[trigger] lanes[l] == v;
        assert(least_in(lanes[l], legs, m, l));
        let k = choose|k: int| 0 <= k < legs.len() && k % m == l && #[trigger] legs[k] == v;
        assert(k % 1 == 0);
    }
    assert forall|k: int|
        0 <= k < legs.len() && k % 1 == 0 && !is_nan(#[trigger] legs[k]) implies rank(v) <= rank(
        legs[k],
    ) by {
        let l = k % m;
        assert(0 <= l < m);
        assert(least_in(lanes[l], legs, m, l));
        assert(l % 1 == 0);
        assert(!is_nan(lanes[l]));
    }
}

/// Legs that cannot lower a minimum may be left out at the end.
pub proof fn lemma_least_of_inert_tail(legs: Seq<u32>, n: int)
    requires
        0 <= n <= legs.len(),
        forall|k: int| n <= k < legs.len() ==> is_inert(#[trigger] legs[k]),
    ensures
        least_of(legs) == least_of(legs.take(n)),
    decreases legs.len(),
{
    if n == legs.len() {
        assert(legs.take(n) =~= legs);
    } else {
        let front = legs.drop_last();
        lemma_least_of_inert_tail(front, n);
        assert(front.take(n) =~= legs.take(n));
        lemma_least_of_is_least(front);
        assert(is_inert(legs[legs.len() - 1]));
    }
}

/// Legs that weigh the same, place by place, have the same minimum.
pub proof fn lemma_least_of_same_weights(a: Seq<u32>, b: Seq<u32>)
    requires
        a.len() == b.len(),
        forall|k: int| 0 <= k < a.len() ==> same_weight(#[trigger] a[k], b[k]),
    ensures
        least_of(a) == least_of(b),
    decreases a.len(),
{
    if a.len() > 0 {
        lemma_least_of_same_weights(a.drop_last(), b.drop_last());
        lemma_least_of_is_least(a.drop_last());
        assert(same_weight(a[a.len() - 1], b[a.len() - 1]));
    }
}

} // verus!
