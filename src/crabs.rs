use vstd::prelude::*;
use vstd::math::abs;
use crate::order::{ascending, sort_ascending};

verus! {

/// The sum of the distances from `y` to each of `xs`.
pub open spec fn l1_sum(y: int, xs: Seq<i32>) -> nat
    decreases xs.len(),
{
    if xs.len() == 0 {
        0
    } else {
        l1_sum(y, xs.drop_last()) + abs(y - xs.last())
    }
}

/// The sum over `xs` of `d * (d + 1)`, `d` the distance from `y`: twice the
/// fuel when each further step costs one more than the last.
pub open spec fn stepped_sum(y: int, xs: Seq<i32>) -> nat
    decreases xs.len(),
{
    if xs.len() == 0 {
        0
    } else {
        stepped_sum(y, xs.drop_last()) + abs(y - xs.last()) * (abs(y - xs.last()) + 1)
    }
}

/// The fuel to bring every crab at `xs` to `y`, one unit per step.
pub fn l1(y: i32, xs: &Vec<i32>) -> (r: u64)
    requires
        xs@.len() <= u32::MAX,
    ensures
        r == l1_sum(y as int, xs@),
{
    let mut total: u64 = 0;
    let mut i: usize = 0;
    while i < xs.len()
        invariant
            i <= xs@.len() <= u32::MAX,
            total == l1_sum(y as int, xs@.subrange(0, i as int)),
            total <= i * 0xffff_ffff,
        decreases xs@.len() - i,
    {
        let ghost pre = xs@.subrange(0, i as int);
        assert(xs@.subrange(0, i + 1).drop_last() == pre);
        let d: i64 = y as i64 - xs[i] as i64;
        let a: u64 = if d < 0 { (0 - d) as u64 } else { d as u64 };
        assert(total + a <= (i + 1) * 0xffff_ffff) by (nonlinear_arith)
            requires
                total <= i * 0xffff_ffff,
                a <= 0xffff_ffff,
        ;
        assert((i + 1) * 0xffff_ffff <= 0xffff_ffff * 0xffff_ffff) by (nonlinear_arith)
            requires
                i + 1 <= 0xffff_ffff,
        ;
        total = total + a;
        i = i + 1;
    }
    assert(xs@.subrange(0, i as int) == xs@);
    total
}

/// The fuel to bring every crab at `xs` to `y` when a move of `d` steps costs
/// `1 + 2 + ... + d`.
pub fn not_l2(y: i32, xs: &Vec<i32>) -> (r: u128)
    requires
        xs@.len() <= u32::MAX,
    ensures
        r == stepped_sum(y as int, xs@) / 2,
{
    let mut total: u128 = 0;
    let mut i: usize = 0;
    while i < xs.len()
        invariant
            i <= xs@.len() <= u32::MAX,
            total == stepped_sum(y as int, xs@.subrange(0, i as int)),
            total <= i * 0x1_0000_0000_0000_0000,
        decreases xs@.len() - i,
    {
        let ghost pre = xs@.subrange(0, i as int);
        assert(xs@.subrange(0, i + 1).drop_last() == pre);
        let d: i64 = y as i64 - xs[i] as i64;
        let a: u128 = if d < 0 { (0 - d) as u128 } else { d as u128 };
        assert(a * (a + 1) <= 0x1_0000_0000_0000_0000) by (nonlinear_arith)
            requires
                a <= 0xffff_ffff,
        ;
        assert(total + a * (a + 1) <= (i + 1) * 0x1_0000_0000_0000_0000) by (nonlinear_arith)
            requires
                total <= i * 0x1_0000_0000_0000_0000,
                a * (a + 1) <= 0x1_0000_0000_0000_0000,
        ;
        assert((i + 1) * 0x1_0000_0000_0000_0000 <= 0x1_0000_0000 * 0x1_0000_0000_0000_0000) by (nonlinear_arith)
            requires
                i + 1 <= 0x1_0000_0000,
        ;
        total = total + a * (a + 1);
        i = i + 1;
    }
    assert(xs@.subrange(0, i as int) == xs@);
    total / 2
}

/// The positions moved into `u64`, order kept.
pub open spec fn shifted(xs: Seq<i32>) -> Seq<u64> {
    xs.map_values(|x: i32| (x as int + 0x8000_0000) as u64)
}

/// The position at half the count in ascending order.
pub open spec fn median_of(xs: Seq<i32>) -> int {
    ascending(shifted(xs))[(xs.len() / 2) as int] as int - 0x8000_0000
}

/// The sum of the positions.
pub open spec fn sum_of(xs: Seq<i32>) -> int
    decreases xs.len(),
{
    if xs.len() == 0 {
        0
    } else {
        sum_of(xs.drop_last()) + xs.last()
    }
}

/// `a / b` rounded toward zero, for a positive `b`.
pub open spec fn div_toward_zero(a: int, b: int) -> int {
    if a >= 0 {
        a / b
    } else {
        -((-a) / b)
    }
}

/// The mean position, rounded toward zero.
pub open spec fn mean_of(xs: Seq<i32>) -> int {
    div_toward_zero(sum_of(xs), xs.len() as int)
}

/// The least stepped fuel over the positions `lo..hi`.
pub open spec fn least_fuel(xs: Seq<i32>, lo: int, hi: int) -> nat
    decreases hi - lo,
{
    if hi - lo <= 1 {
        stepped_sum(lo, xs) / 2
    } else {
        let rest = least_fuel(xs, lo + 1, hi);
        let here = stepped_sum(lo, xs) / 2;
        if here <= rest {
            here
        } else {
            rest
        }
    }
}

/// The median and mean positions of the crabs.
pub fn median_and_mean(xs: &Vec<i32>) -> (r: (i32, i32))
    requires
        0 < xs@.len() <= u32::MAX,
    ensures
        r.0 == median_of(xs@),
        r.1 == mean_of(xs@),
{
    let mut wide: Vec<u64> = Vec::new();
    let mut total: i64 = 0;
    let mut i: usize = 0;
    while i < xs.len()
        invariant
            i <= xs@.len() <= u32::MAX,
            wide@ == shifted(xs@.subrange(0, i as int)),
            total == sum_of(xs@.subrange(0, i as int)),
            -0x8000_0000 * i <= total <= 0x7fff_ffff * i,
        decreases xs@.len() - i,
    {
        assert(xs@.subrange(0, i + 1).drop_last() == xs@.subrange(0, i as int));
        wide.push((xs[i] as i64 + 0x8000_0000) as u64);
        assert(wide@ =~= shifted(xs@.subrange(0, i + 1)));
        assert(-0x8000_0000 * (i + 1) <= total + xs[i as int] <= 0x7fff_ffff * (i + 1)) by (nonlinear_arith)
            requires
                -0x8000_0000 * i <= total <= 0x7fff_ffff * i,
                -0x8000_0000 <= xs[i as int] < 0x8000_0000,
        ;
        total = total + xs[i] as i64;
        i = i + 1;
    }
    assert(xs@.subrange(0, i as int) == xs@);
    let s = sort_ascending(&wide);
    proof {
        broadcast use vstd::seq_lib::group_to_multiset_ensures;
        let a = ascending(shifted(xs@));
        assert(a == s@);
        assert(a.contains(a[(xs@.len() / 2) as int]));
        assert(a.to_multiset().contains(a[(xs@.len() / 2) as int]));
        assert(shifted(xs@).to_multiset().contains(a[(xs@.len() / 2) as int]));
        assert(shifted(xs@).contains(a[(xs@.len() / 2) as int]));
        let j = choose|j: int| 0 <= j < shifted(xs@).len() && shifted(xs@)[j] == a[(xs@.len() / 2) as int];
        assert(shifted(xs@)[j] == (xs@[j] as int + 0x8000_0000) as u64);
    }
    let median = (s[xs.len() / 2] as i64 - 0x8000_0000) as i32;
    let n = xs.len() as i64;
    let mean = if total >= 0 {
        total / n
    } else {
        0 - ((0 - total) / n)
    };
    assert(mean as int == mean_of(xs@));
    assert(-0x8000_0000 <= mean <= 0x7fff_ffff) by {
        if total >= 0 {
            assert((total as int) / (n as int) <= 0x7fff_ffff) by (nonlinear_arith)
                requires
                    0 <= total as int <= 0x7fff_ffff * (n as int),
                    n > 0,
            ;
        } else {
            assert((0 - total as int) / (n as int) <= 0x8000_0000) by (nonlinear_arith)
                requires
                    0 < 0 - total as int <= 0x8000_0000 * (n as int),
                    n > 0,
            ;
        }
    }
    (median, mean as i32)
}

/// The least fuel over the positions from `lo` up to, not including, `hi`,
/// where each further step costs one more than the last.
pub fn cheapest_stepped(xs: &Vec<i32>, lo: i32, hi: i32) -> (r: u128)
    requires
        lo < hi,
        xs@.len() <= u32::MAX,
    ensures
        r == least_fuel(xs@, lo as int, hi as int),
{
    let mut y: i32 = hi - 1;
    let mut best: u128 = not_l2(y, xs);
    while y > lo
        invariant
            lo <= y < hi,
            xs@.len() <= u32::MAX,
            best == least_fuel(xs@, y as int, hi as int),
        decreases y - lo,
    {
        y = y - 1;
        let here = not_l2(y, xs);
        if here <= best {
            best = here;
        }
    }
    best
}

/// The positions to search for the cheapest stepped fuel, from `lo` up to,
/// not including, `hi`: from the median through one past the mean where the
/// median is lower, else from the mean through the median.
pub open spec fn search_bounds(median: int, mean: int) -> (int, int) {
    if median < mean {
        (median, mean + 2)
    } else {
        (mean, median + 1)
    }
}

/// The bounds of the search around the median and the mean; `None` where the
/// upper bound does not fit an `i32`.
pub fn search_range(median: i32, mean: i32) -> (r: Option<(i32, i32)>)
    ensures
        match r {
            Some((lo, hi)) => (lo as int, hi as int) == search_bounds(median as int, mean as int) && lo < hi,
            None => search_bounds(median as int, mean as int).1 > i32::MAX,
        },
{
    if median < mean {
        if mean > i32::MAX - 2 {
            return None;
        }
        Some((median, mean + 2))
    } else {
        if median == i32::MAX {
            return None;
        }
        Some((mean, median + 1))
    }
}

} // verus!
