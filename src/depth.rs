use vstd::prelude::*;

verus! {

/// How many readings of `s` exceed the reading `gap` places before them.
pub open spec fn increases(s: Seq<i32>, gap: nat) -> nat
    decreases s.len(),
{
    if s.len() <= gap {
        0
    } else {
        increases(s.drop_last(), gap) + if s.last() > s[s.len() - 1 - gap] {
            1nat
        } else {
            0nat
        }
    }
}

/// Counts the readings that exceed the one `gap` places before them. With a gap
/// of one this compares successive readings; with a gap of three it compares
/// successive sums of three-reading windows, which share two readings.
pub fn count_increases(depths: &Vec<i32>, gap: usize) -> (r: usize)
    ensures
        r == increases(depths@, gap as nat),
{
    let mut count: usize = 0;
    let mut i: usize = gap;
    if depths.len() <= gap {
        return 0;
    }
    while i < depths.len()
        invariant
            gap <= i <= depths@.len(),
            count == increases(depths@.subrange(0, i as int), gap as nat),
            count <= i,
        decreases depths@.len() - i,
    {
        let ghost pre = depths@.subrange(0, i as int);
        let ghost next = depths@.subrange(0, i + 1);
        assert(next.drop_last() == pre);
        if depths[i] > depths[i - gap] {
            count = count + 1;
        }
        i = i + 1;
    }
    assert(depths@.subrange(0, i as int) == depths@);
    count
}

/// The positions whose reading exceeds the reading `gap` places before.
pub open spec fn increase_set(s: Seq<i32>, gap: nat) -> Set<int> {
    Set::new(|i: int| gap <= i < s.len() && s[i] > s[i - gap])
}

/// The count of rises is the size of the set of positions that rise: with a
/// gap of one, the number of `i` with `1 <= i < n` and `d[i] > d[i-1]`.
pub proof fn lemma_increases_count(s: Seq<i32>, gap: nat)
    ensures
        increase_set(s, gap).finite(),
        increase_set(s, gap).len() == increases(s, gap),
    decreases s.len(),
{
    broadcast use vstd::set::group_set_axioms;

    if s.len() <= gap {
        assert(increase_set(s, gap) =~= Set::empty());
    } else {
        let pre = s.drop_last();
        lemma_increases_count(pre, gap);
        let n = s.len() - 1;
        assert(!increase_set(pre, gap).contains(n));
        if s[n] > s[n - gap] {
            assert(increase_set(s, gap) =~= increase_set(pre, gap).insert(n));
        } else {
            assert(increase_set(s, gap) =~= increase_set(pre, gap));
        }
    }
}

} // verus!
