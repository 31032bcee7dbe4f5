//! A vector of weights of fixed width, and the operations on all its lanes
//! at once.
use crate::product::total;
use crate::weight::{horizontal_min, least_of, lesser, min, UNREACHABLE};
use vstd::prelude::*;

verus! {

/// The number of lanes of a vector.
pub const WIDTH: usize = 8;

/// `WIDTH` weights.
#[derive(Clone, Copy)]
pub struct Lanes {
    pub lane: [u32; 8],
}

impl View for Lanes {
    type V = Seq<u32>;

    open spec fn view(&self) -> Seq<u32> {
        self.lane@
    }
}

impl Lanes {
    /// The vector of positive infinity in every lane.
    pub fn infinity() -> (v: Lanes)
        ensures
            v@.len() == WIDTH,
            forall|l: int| 0 <= l < WIDTH ==> #[trigger] v@[l] == UNREACHABLE,
    {
        Lanes { lane: [UNREACHABLE; 8] }
    }

    /// The vector of the `WIDTH` weights of `row` that begin at place `at`.
    pub fn load(row: &[u32], at: usize) -> (v: Lanes)
        requires
            at + WIDTH <= row@.len(),
        ensures
            v@ == row@.subrange(at as int, at + WIDTH),
    {
        let len = row.len();
        let mut lane: [u32; 8] = [UNREACHABLE; 8];
        let mut l: usize = 0;
        while l < WIDTH
            invariant
                l <= WIDTH,
                at + WIDTH <= len,
                len == row@.len(),
                forall|k: int| 0 <= k < l ==> #[trigger] lane@[k] == row@[at + k],
            decreases WIDTH - l,
        {
            lane[l] = row[at + l];
            l += 1;
        }
        assert(lane@ =~= row@.subrange(at as int, at + WIDTH));
        Lanes { lane }
    }

    /// The sums of the two vectors, lane by lane: each lane holds a weight
    /// that `plus` gives for the two lanes.
    pub fn sum<P: Fn(u32, u32) -> u32>(&self, other: &Lanes, plus: &P) -> (v: Lanes)
        requires
            total(plus),
        ensures
            v@.len() == WIDTH,
            forall|l: int| 0 <= l < WIDTH ==> call_ensures(plus, (self@[l], other@[l]), #[trigger] v@[l]),
    {
        let mut lane: [u32; 8] = [UNREACHABLE; 8];
        let mut l: usize = 0;
        while l < WIDTH
            invariant
                l <= WIDTH,
                total(plus),
                forall|k: int| 0 <= k < l ==> call_ensures(plus, (self@[k], other@[k]), #[trigger] lane@[k]),
            decreases WIDTH - l,
        {
            lane[l] = plus(self.lane[l], other.lane[l]);
            l += 1;
        }
        Lanes { lane }
    }

    /// The lesser of the two vectors, lane by lane.
    pub fn min(&self, other: &Lanes) -> (v: Lanes)
        ensures
            v@.len() == WIDTH,
            forall|l: int| 0 <= l < WIDTH ==> #[trigger] v@[l] == lesser(self@[l], other@[l]),
    {
        let mut lane: [u32; 8] = [UNREACHABLE; 8];
        let mut l: usize = 0;
        while l < WIDTH
            invariant
                l <= WIDTH,
                forall|k: int| 0 <= k < l ==> #[trigger] lane@[k] == lesser(self@[k], other@[k]),
            decreases WIDTH - l,
        {
            lane[l] = min(self.lane[l], other.lane[l]);
            l += 1;
        }
        Lanes { lane }
    }

    /// The least weight of all the lanes.
    pub fn horizontal_min(&self) -> (w: u32)
        ensures
            w == least_of(self@),
    {
        horizontal_min(self.lane.as_slice())
    }
}

} // verus!
