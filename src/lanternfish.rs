use vstd::prelude::*;
use crate::text::{decimal, parse_unsigned, split_at_sep, split_pieces, split_ranges};

verus! {

/// One day for a shoal counted by timer: `ages[t]` fish have `t` days left
/// before they spawn. Each timer drops by one; the fish at zero restart at six
/// and each adds a newborn at eight.
pub fn step(ages: &mut [u64; 9])
    requires
        old(ages)@[7] + old(ages)@[0] <= u64::MAX,
    ensures
        final(ages)@ == seq![
            old(ages)@[1],
            old(ages)@[2],
            old(ages)@[3],
            old(ages)@[4],
            old(ages)@[5],
            old(ages)@[6],
            (old(ages)@[7] + old(ages)@[0]) as u64,
            old(ages)@[8],
            old(ages)@[0],
        ],
{
    let regen = ages[0];
    let mut n: usize = 1;
    while n < 9
        invariant
            1 <= n <= 9,
            regen == old(ages)@[0],
            ages@.len() == 9,
            forall|k: int| 0 <= k < n - 1 ==> #[trigger] ages@[k] == old(ages)@[k + 1],
            forall|k: int| n - 1 <= k < 9 ==> #[trigger] ages@[k] == old(ages)@[k],
        decreases 9 - n,
    {
        ages[n - 1] = ages[n];
        n = n + 1;
    }
    ages[8] = 0;
    ages[6] = ages[6] + regen;
    ages[8] = ages[8] + regen;
    assert(ages@ =~= seq![
        old(ages)@[1],
        old(ages)@[2],
        old(ages)@[3],
        old(ages)@[4],
        old(ages)@[5],
        old(ages)@[6],
        (old(ages)@[7] + old(ages)@[0]) as u64,
        old(ages)@[8],
        old(ages)@[0],
    ]);
}

/// How many of the `k` first timers are `t`.
pub open spec fn tally(timers: Seq<Seq<char>>, k: int, t: nat) -> nat
    decreases k,
{
    if k <= 0 {
        0
    } else {
        tally(timers, k - 1, t) + if decimal(timers[k - 1]) == Some(t) {
            1nat
        } else {
            0nat
        }
    }
}

/// Every timer is a number from zero to eight.
pub open spec fn timers_ok(timers: Seq<Seq<char>>) -> bool {
    forall|k: int| 0 <= k < timers.len() ==> match #[trigger] decimal(timers[k]) {
        Some(v) => v <= 8,
        None => false,
    }
}

/// Counts the fish of each timer in a list such as `3,4,3,1,2`; `None` where
/// an entry is not a number from zero to eight.
pub fn count_timers(s: &str) -> (r: Option<[u64; 9]>)
    ensures
        match r {
            Some(a) => timers_ok(split_pieces(s@, seq![','])) && forall|t: int|
                0 <= t < 9 ==> #[trigger] a@[t] == tally(split_pieces(s@, seq![',']), split_pieces(s@, seq![',']).len() as int, t as nat),
            None => !timers_ok(split_pieces(s@, seq![','])),
        },
{
    proof {
        reveal_strlit(",");
        assert(","@ =~= seq![',']);
    }
    let parts = split_at_sep(s, ",");
    let ghost rr = split_ranges(s@, seq![','], 0, 0);
    let ghost ps = split_pieces(s@, seq![',']);
    let mut ages = [0u64; 9];
    let mut k: usize = 0;
    while k < parts.len()
        invariant
            k <= parts@.len(),
            parts@.len() == rr.len(),
            ps == split_pieces(s@, seq![',']),
            rr == split_ranges(s@, seq![','], 0, 0),
            ps.len() == rr.len(),
            forall|j: int|
                0 <= j < parts@.len() ==> {
                    &&& (#[trigger] parts@[j]).0 as int == rr[j].0
                    &&& parts@[j].1 as int == rr[j].1
                    &&& parts@[j].0 <= parts@[j].1 <= s@.len()
                },
            ages@.len() == 9,
            forall|j: int| 0 <= j < k ==> match #[trigger] decimal(ps[j]) {
                Some(v) => v <= 8,
                None => false,
            },
            forall|t: int| 0 <= t < 9 ==> #[trigger] ages@[t] == tally(ps, k as int, t as nat),
            forall|t: int| 0 <= t < 9 ==> #[trigger] ages@[t] <= k,
        decreases parts@.len() - k,
    {
        let (lo, hi) = parts[k];
        assert(ps[k as int] == s@.subrange(lo as int, hi as int));
        let t = match parse_unsigned(s, lo, hi, 8) {
            Some(t) => t as usize,
            None => {
                assert(!timers_ok(ps));
                return None;
            },
        };
        ages[t] = ages[t] + 1;
        k = k + 1;
    }
    Some(ages)
}

/// The number of fish.
pub open spec fn fish_total(ages: Seq<u64>) -> nat
    decreases ages.len(),
{
    if ages.len() == 0 {
        0
    } else {
        fish_total(ages.drop_last()) + ages.last() as nat
    }
}

/// The number of fish of every timer together.
pub fn total(ages: &[u64; 9]) -> (r: u128)
    ensures
        r == fish_total(ages@),
{
    let mut sum: u128 = 0;
    let mut i: usize = 0;
    while i < 9
        invariant
            i <= 9,
            ages@.len() == 9,
            sum == fish_total(ages@.subrange(0, i as int)),
            sum <= i * 0x1_0000_0000_0000_0000,
        decreases 9 - i,
    {
        assert(ages@.subrange(0, i + 1).drop_last() == ages@.subrange(0, i as int));
        sum = sum + ages[i] as u128;
        i = i + 1;
    }
    assert(ages@.subrange(0, 9) == ages@);
    sum
}

} // verus!
