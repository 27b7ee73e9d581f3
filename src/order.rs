use vstd::prelude::*;
use itertools::Itertools;
use vstd::relations::{sorted_by, total_ordering};

verus! {

pub open spec fn num_le(a: u64, b: u64) -> bool {
    a <= b
}

/// The numbers of `v` in ascending order.
pub open spec fn ascending(v: Seq<u64>) -> Seq<u64> {
    v.sort_by(|a: u64, b: u64| num_le(a, b))
}

/// Relies on Itertools::sorted: the same items, in ascending order.
#[verifier::external_body]
fn sorted_numbers(v: Vec<u64>) -> (r: Vec<u64>)
    ensures
        r@.to_multiset() == v@.to_multiset(),
        sorted_by(r@, |a: u64, b: u64| num_le(a, b)),
{
    v.into_iter().sorted().collect()
}

proof fn lemma_num_order()
    ensures
        total_ordering(|a: u64, b: u64| num_le(a, b)),
{
}

/// The numbers of `v` in ascending order.
pub fn sort_ascending(v: &Vec<u64>) -> (r: Vec<u64>)
    ensures
        r@ == ascending(v@),
        r@.len() == v@.len(),
        r@.to_multiset() == v@.to_multiset(),
{
    let w = v.clone();
    assert(w@ == v@);
    let s = sorted_numbers(w);
    proof {
        vstd::seq_lib::to_multiset_len(s@);
        vstd::seq_lib::to_multiset_len(v@);
        lemma_num_order();
        v@.lemma_sort_by_ensures(|a: u64, b: u64| num_le(a, b));
        vstd::seq_lib::lemma_sorted_unique(s@, ascending(v@), |a: u64, b: u64| num_le(a, b));
    }
    s
}

} // verus!
