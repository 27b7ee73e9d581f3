use vstd::prelude::*;
use crate::text::{chars_of, split_at_sep, split_pieces, split_ranges};

verus! {

/// Which of the seven wires `a` to `g` a letter names.
pub open spec fn wire_index(c: char) -> int {
    c as int - 'a' as int
}

pub open spec fn is_wire(c: char) -> bool {
    'a' <= c <= 'g'
}

/// The wires that the letters of `w` name.
pub open spec fn wires_of(w: Seq<char>) -> Seq<bool> {
    Seq::new(7, |i: int| exists|j: int| 0 <= j < w.len() && wire_index(w[j]) == i)
}

/// How many wires are on.
pub open spec fn count(p: Seq<bool>) -> nat
    decreases p.len(),
{
    if p.len() == 0 {
        0
    } else {
        count(p.drop_last()) + if p.last() {
            1nat
        } else {
            0nat
        }
    }
}

/// The wires of `p` that are not in `q`.
pub open spec fn minus(p: Seq<bool>, q: Seq<bool>) -> Seq<bool> {
    Seq::new(7, |i: int| p[i] && !q[i])
}

/// The wires of `p` or of `q`.
pub open spec fn union(p: Seq<bool>, q: Seq<bool>) -> Seq<bool> {
    Seq::new(7, |i: int| p[i] || q[i])
}

/// Wire `i` alone.
pub open spec fn only(i: int) -> Seq<bool> {
    Seq::new(7, |k: int| k == i)
}

/// The first wire of `p` from `i` on.
pub open spec fn lowest_from(p: Seq<bool>, i: int) -> Option<int>
    decreases 7 - i,
{
    if i < 0 || i >= 7 {
        None
    } else if p[i] {
        Some(i)
    } else {
        lowest_from(p, i + 1)
    }
}

/// The first wire of `p`.
pub open spec fn lowest(p: Seq<bool>) -> Option<int> {
    lowest_from(p, 0)
}

/// How many patterns have `n` wires.
pub open spec fn with_count(ps: Seq<Seq<bool>>, n: nat) -> nat
    decreases ps.len(),
{
    if ps.len() == 0 {
        0
    } else {
        with_count(ps.drop_last(), n) + if count(ps.last()) == n {
            1nat
        } else {
            0nat
        }
    }
}

/// The pattern with `n` wires, where exactly one has that many.
pub open spec fn unique(ps: Seq<Seq<bool>>, n: nat) -> Option<Seq<bool>> {
    if with_count(ps, n) == 1 {
        Some(ps[choose|k: int| 0 <= k < ps.len() && count(ps[k]) == n])
    } else {
        None
    }
}

/// The wire that `x` has beyond the first six-wire pattern (from the `k`-th
/// on) that covers all of `x` but one.
pub open spec fn first_leaving(ps: Seq<Seq<bool>>, x: Seq<bool>, k: int) -> Option<int>
    decreases ps.len() - k,
{
    if k < 0 || k >= ps.len() {
        None
    } else if count(ps[k]) == 6 && count(minus(x, ps[k])) == 1 {
        lowest(minus(x, ps[k]))
    } else {
        first_leaving(ps, x, k + 1)
    }
}

/// The wire that the first six-wire pattern (from the `k`-th on) has beyond
/// `x`, where it has exactly one.
pub open spec fn first_adding(ps: Seq<Seq<bool>>, x: Seq<bool>, k: int) -> Option<int>
    decreases ps.len() - k,
{
    if k < 0 || k >= ps.len() {
        None
    } else if count(ps[k]) == 6 && count(minus(ps[k], x)) == 1 {
        lowest(minus(ps[k], x))
    } else {
        first_adding(ps, x, k + 1)
    }
}

/// The segment (0 for `a` to 6 for `g`) that each wire drives, as the ten
/// patterns reveal it, or -1 where none was found; `None` where the patterns do
/// not allow the deduction.
pub open spec fn deduced(ps: Seq<Seq<bool>>) -> Option<Seq<int>> {
    match (unique(ps, 2), unique(ps, 4), unique(ps, 3), unique(ps, 7)) {
        (Some(one), Some(four), Some(seven), Some(_)) => {
            let dc = minus(four, one);
            match (lowest(minus(seven, one)), first_leaving(ps, dc, 0)) {
                (Some(a), Some(d)) => match (lowest(minus(dc, only(d))), first_leaving(ps, one, 0)) {
                    (Some(b), Some(c)) => match lowest(minus(one, only(c))) {
                        Some(f) => {
                            let m = Seq::new(7, |i: int| -1int).update(a, 0).update(b, 1).update(d, 3).update(c, 2).update(
                                f,
                                5,
                            );
                            let found = Seq::new(7, |i: int| m[i] >= 0);
                            match first_adding(ps, found, 0) {
                                Some(g) => match lowest(minus(Seq::new(7, |i: int| true), union(found, only(g)))) {
                                    Some(e) => Some(m.update(g, 6).update(e, 4)),
                                    None => None,
                                },
                                None => None,
                            }
                        },
                        None => None,
                    },
                    _ => None,
                },
                _ => None,
            }
        },
        _ => None,
    }
}

/// The segments that light for digit `k`.
pub open spec fn digit_segments(k: int) -> Seq<bool> {
    if k == 0 {
        seq![true, true, true, false, true, true, true]
    } else if k == 1 {
        seq![false, false, true, false, false, true, false]
    } else if k == 2 {
        seq![true, false, true, true, true, false, true]
    } else if k == 3 {
        seq![true, false, true, true, false, true, true]
    } else if k == 4 {
        seq![false, true, true, true, false, true, false]
    } else if k == 5 {
        seq![true, true, false, true, false, true, true]
    } else if k == 6 {
        seq![true, true, false, true, true, true, true]
    } else if k == 7 {
        seq![true, false, true, false, false, true, false]
    } else if k == 8 {
        seq![true, true, true, true, true, true, true]
    } else {
        seq![true, true, true, true, false, true, true]
    }
}

/// Every letter of `w` is a wire with a known segment.
pub open spec fn all_mapped(m: Seq<int>, w: Seq<char>) -> bool {
    forall|j: int| 0 <= j < w.len() ==> is_wire(#[trigger] w[j]) && m[wire_index(w[j])] >= 0
}

/// The segments that the letters of `w` light under `m`.
pub open spec fn lit(m: Seq<int>, w: Seq<char>) -> Seq<bool> {
    Seq::new(7, |s: int| exists|j: int| 0 <= j < w.len() && m[wire_index(w[j])] == s)
}

/// `w` shows digit `k` under `m`: its letters light exactly that digit's
/// segments, each once.
pub open spec fn shows(m: Seq<int>, w: Seq<char>, k: int) -> bool {
    all_mapped(m, w) && lit(m, w) == digit_segments(k) && w.len() == count(digit_segments(k))
}

/// The digit that `w` shows under `m`, if any.
pub open spec fn digit_of(m: Seq<int>, w: Seq<char>) -> Option<int> {
    if exists|k: int| 0 <= k < 10 && shows(m, w, k) {
        Some(choose|k: int| 0 <= k < 10 && shows(m, w, k) && forall|j: int| 0 <= j < k ==> !shows(m, w, j))
    } else {
        None
    }
}

/// The number that the output words show, first digit first.
pub open spec fn shown_value(m: Seq<int>, outs: Seq<Seq<char>>) -> Option<int>
    decreases outs.len(),
{
    if outs.len() == 0 {
        Some(0)
    } else {
        match (shown_value(m, outs.drop_last()), digit_of(m, outs.last())) {
            (Some(v), Some(d)) => Some(v * 10 + d),
            _ => None,
        }
    }
}

/// The patterns as wire sets.
pub open spec fn pattern_view(ps: Seq<[bool; 7]>) -> Seq<Seq<bool>> {
    ps.map_values(|a: [bool; 7]| a@)
}

fn count_on(p: &[bool; 7]) -> (r: usize)
    ensures
        r == count(p@),
        r <= 7,
{
    let mut n: usize = 0;
    let mut i: usize = 0;
    while i < 7
        invariant
            i <= 7,
            p@.len() == 7,
            n == count(p@.subrange(0, i as int)),
            n <= i,
        decreases 7 - i,
    {
        assert(p@.subrange(0, i + 1).drop_last() == p@.subrange(0, i as int));
        if p[i] {
            n = n + 1;
        }
        i = i + 1;
    }
    assert(p@.subrange(0, 7) == p@);
    n
}

fn minus_w(p: &[bool; 7], q: &[bool; 7]) -> (r: [bool; 7])
    ensures
        r@ == minus(p@, q@),
{
    let mut r = [false; 7];
    let mut i: usize = 0;
    while i < 7
        invariant
            i <= 7,
            r@.len() == 7,
            forall|k: int| 0 <= k < i ==> r@[k] == (p@[k] && !q@[k]),
        decreases 7 - i,
    {
        r[i] = p[i] && !q[i];
        i = i + 1;
    }
    assert(r@ =~= minus(p@, q@));
    r
}

fn lowest_w(p: &[bool; 7]) -> (r: Option<usize>)
    ensures
        match r {
            Some(i) => lowest(p@) == Some(i as int) && i < 7,
            None => lowest(p@).is_none(),
        },
{
    let mut i: usize = 0;
    while i < 7
        invariant
            i <= 7,
            p@.len() == 7,
            lowest(p@) == lowest_from(p@, i as int),
        decreases 7 - i,
    {
        if p[i] {
            return Some(i);
        }
        i = i + 1;
    }
    None
}

proof fn lemma_with_count_two(ps: Seq<Seq<bool>>, n: nat, i: int, j: int)
    requires
        0 <= i < j < ps.len(),
        count(ps[i]) == n,
        count(ps[j]) == n,
    ensures
        with_count(ps, n) >= 2,
    decreases ps.len(),
{
    if j < ps.len() - 1 {
        lemma_with_count_two(ps.drop_last(), n, i, j);
    } else {
        lemma_with_count_one(ps.drop_last(), n, i);
    }
}

proof fn lemma_with_count_one(ps: Seq<Seq<bool>>, n: nat, i: int)
    requires
        0 <= i < ps.len(),
        count(ps[i]) == n,
    ensures
        with_count(ps, n) >= 1,
    decreases ps.len(),
{
    if i < ps.len() - 1 {
        lemma_with_count_one(ps.drop_last(), n, i);
    }
}

/// The pattern with `n` wires, where exactly one has that many.
fn unique_w(ps: &Vec<[bool; 7]>, n: usize) -> (r: Option<[bool; 7]>)
    ensures
        match r {
            Some(p) => unique(pattern_view(ps@), n as nat) == Some(p@),
            None => unique(pattern_view(ps@), n as nat).is_none(),
        },
{
    let ghost v = pattern_view(ps@);
    let mut seen: usize = 0;
    let mut at: usize = 0;
    let mut k: usize = 0;
    while k < ps.len()
        invariant
            k <= ps@.len(),
            v == pattern_view(ps@),
            seen == with_count(v.subrange(0, k as int), n as nat),
            seen <= k,
            seen >= 1 ==> at < k && count(v[at as int]) == n,
        decreases ps@.len() - k,
    {
        assert(v.subrange(0, k + 1).drop_last() == v.subrange(0, k as int));
        assert(v[k as int] == ps@[k as int]@);
        if count_on(&ps[k]) == n {
            if seen == 0 {
                at = k;
            }
            seen = seen + 1;
        }
        k = k + 1;
    }
    assert(v.subrange(0, k as int) == v);
    if seen == 1 {
        proof {
            let c = choose|j: int| 0 <= j < v.len() && count(v[j]) == n;
            if c < at {
                lemma_with_count_two(v, n as nat, c, at as int);
            } else if c > at {
                lemma_with_count_two(v, n as nat, at as int, c);
            }
        }
        Some(ps[at])
    } else {
        None
    }
}

/// `first_leaving` or `first_adding`, as `adding` says.
fn first_six(ps: &Vec<[bool; 7]>, x: &[bool; 7], adding: bool) -> (r: Option<usize>)
    ensures
        match r {
            Some(i) => i < 7 && (if adding {
                first_adding(pattern_view(ps@), x@, 0)
            } else {
                first_leaving(pattern_view(ps@), x@, 0)
            }) == Some(i as int),
            None => (if adding {
                first_adding(pattern_view(ps@), x@, 0)
            } else {
                first_leaving(pattern_view(ps@), x@, 0)
            }).is_none(),
        },
{
    let ghost v = pattern_view(ps@);
    let mut k: usize = 0;
    while k < ps.len()
        invariant
            k <= ps@.len(),
            v == pattern_view(ps@),
            adding ==> first_adding(v, x@, 0) == first_adding(v, x@, k as int),
            !adding ==> first_leaving(v, x@, 0) == first_leaving(v, x@, k as int),
        decreases ps@.len() - k,
    {
        assert(v[k as int] == ps@[k as int]@);
        if count_on(&ps[k]) == 6 {
            let diff = if adding {
                minus_w(&ps[k], x)
            } else {
                minus_w(x, &ps[k])
            };
            if count_on(&diff) == 1 {
                return lowest_w(&diff);
            }
        }
        k = k + 1;
    }
    None
}

fn only_w(i: usize) -> (r: [bool; 7])
    requires
        i < 7,
    ensures
        r@ == only(i as int),
{
    let mut r = [false; 7];
    r[i] = true;
    assert(r@ =~= only(i as int));
    r
}

fn union_w(p: &[bool; 7], q: &[bool; 7]) -> (r: [bool; 7])
    ensures
        r@ == union(p@, q@),
{
    let mut r = [false; 7];
    let mut i: usize = 0;
    while i < 7
        invariant
            i <= 7,
            r@.len() == 7,
            forall|k: int| 0 <= k < i ==> r@[k] == (p@[k] || q@[k]),
        decreases 7 - i,
    {
        r[i] = p[i] || q[i];
        i = i + 1;
    }
    assert(r@ =~= union(p@, q@));
    r
}

fn digit_w(k: usize) -> (r: [bool; 7])
    requires
        k < 10,
    ensures
        r@ == digit_segments(k as int),
{
    let r = if k == 0 {
        [true, true, true, false, true, true, true]
    } else if k == 1 {
        [false, false, true, false, false, true, false]
    } else if k == 2 {
        [true, false, true, true, true, false, true]
    } else if k == 3 {
        [true, false, true, true, false, true, true]
    } else if k == 4 {
        [false, true, true, true, false, true, false]
    } else if k == 5 {
        [true, true, false, true, false, true, true]
    } else if k == 6 {
        [true, true, false, true, true, true, true]
    } else if k == 7 {
        [true, false, true, false, false, true, false]
    } else if k == 8 {
        [true, true, true, true, true, true, true]
    } else {
        [true, true, true, true, false, true, true]
    };
    assert(r@ =~= digit_segments(k as int));
    r
}

fn same_w(p: &[bool; 7], q: &[bool; 7]) -> (r: bool)
    ensures
        r == (p@ == q@),
{
    let mut i: usize = 0;
    while i < 7
        invariant
            i <= 7,
            p@.len() == 7,
            q@.len() == 7,
            forall|k: int| 0 <= k < i ==> p@[k] == q@[k],
        decreases 7 - i,
    {
        if p[i] != q[i] {
            return false;
        }
        i = i + 1;
    }
    assert(p@ =~= q@);
    true
}

/// The number shown, where the patterns allow the deduction and every output
/// word shows a digit.
pub open spec fn decode(ps: Seq<Seq<bool>>, outs: Seq<Seq<char>>) -> Option<int> {
    match deduced(ps) {
        Some(m) => shown_value(m, outs),
        None => None,
    }
}

/// A value shown by all the words is at least the value shown by the first `k`.
proof fn lemma_shown_grows(m: Seq<int>, outs: Seq<Seq<char>>, k: int)
    requires
        0 <= k <= outs.len(),
        shown_value(m, outs).is_some(),
    ensures
        shown_value(m, outs.subrange(0, k)).is_some(),
        shown_value(m, outs.subrange(0, k)).unwrap() <= shown_value(m, outs).unwrap(),
        shown_value(m, outs.subrange(0, k)).unwrap() >= 0,
    decreases outs.len() - k,
{
    if k == outs.len() {
        assert(outs.subrange(0, k) == outs);
        lemma_shown_nonneg(m, outs);
    } else {
        lemma_shown_grows(m, outs, k + 1);
        let p = outs.subrange(0, k + 1);
        assert(p.drop_last() == outs.subrange(0, k));
        lemma_shown_nonneg(m, outs.subrange(0, k));
    }
}

proof fn lemma_shown_nonneg(m: Seq<int>, outs: Seq<Seq<char>>)
    requires
        shown_value(m, outs).is_some(),
    ensures
        shown_value(m, outs).unwrap() >= 0,
    decreases outs.len(),
{
    if outs.len() > 0 {
        lemma_shown_nonneg(m, outs.drop_last());
    }
}

/// One display: the ten patterns of its wires, and the output words.
#[derive(Debug)]
pub struct Signal {
    digits: Vec<[bool; 7]>,
    outputs: Vec<Vec<char>>,
}

/// Every word of the pattern part names only wires `a` to `g`.
pub open spec fn pattern_words_ok(part: Seq<char>) -> bool {
    forall|k: int| 0 <= k < split_pieces(part, seq![' ']).len() ==> all_wires(#[trigger] split_pieces(part, seq![' '])[k])
}

/// Every letter of `w` names a wire.
pub open spec fn all_wires(w: Seq<char>) -> bool {
    forall|j: int| 0 <= j < w.len() ==> is_wire(#[trigger] w[j])
}

impl Signal {
    pub closed spec fn patterns(&self) -> Seq<Seq<bool>> {
        pattern_view(self.digits@)
    }

    pub closed spec fn output_words(&self) -> Seq<Seq<char>> {
        self.outputs@.map_values(|w: Vec<char>| w@)
    }

    /// Reads a display line: the patterns, ` | `, then the output words, each
    /// part split at single spaces. Fails where there is no ` | `, or where a
    /// pattern names a wire other than `a` to `g`.
    pub fn from_str(s: &str) -> (r: Result<Signal, &'static str>)
        ensures
            match r {
                Ok(sig) => {
                    let parts = split_pieces(s@, seq![' ', '|', ' ']);
                    &&& parts.len() >= 2
                    &&& pattern_words_ok(parts[0])
                    &&& sig.patterns() == split_pieces(parts[0], seq![' ']).map_values(|w: Seq<char>| wires_of(w))
                    &&& sig.output_words() == split_pieces(parts[1], seq![' '])
                },
                Err(_) => {
                    let parts = split_pieces(s@, seq![' ', '|', ' ']);
                    parts.len() < 2 || !pattern_words_ok(parts[0])
                },
            },
    {
        proof {
            reveal_strlit(" | ");
            reveal_strlit(" ");
            assert(" | "@ =~= seq![' ', '|', ' ']);
            assert(" "@ =~= seq![' ']);
        }
        let parts = split_at_sep(s, " | ");
        let ghost rr = split_ranges(s@, seq![' ', '|', ' '], 0, 0);
        let ghost pieces = split_pieces(s@, seq![' ', '|', ' ']);
        if parts.len() < 2 {
            return Err("no separator");
        }
        assert(pieces[0] == s@.subrange(rr[0].0, rr[0].1));
        assert(pieces[1] == s@.subrange(rr[1].0, rr[1].1));
        let left = s.substring_char(parts[0].0, parts[0].1);
        let right = s.substring_char(parts[1].0, parts[1].1);
        let lw = split_at_sep(left, " ");
        let ghost lr = split_ranges(left@, seq![' '], 0, 0);
        let ghost lp = split_pieces(left@, seq![' ']);
        let mut digits: Vec<[bool; 7]> = Vec::new();
        let mut k: usize = 0;
        while k < lw.len()
            invariant
                k <= lw@.len(),
                lw@.len() == lr.len(),
                lp == split_pieces(left@, seq![' ']),
                left@ == split_pieces(s@, seq![' ', '|', ' '])[0],
                lr == split_ranges(left@, seq![' '], 0, 0),
                lp.len() == lr.len(),
                forall|j: int|
                    0 <= j < lw@.len() ==> {
                        &&& (#[trigger] lw@[j]).0 as int == lr[j].0
                        &&& lw@[j].1 as int == lr[j].1
                        &&& lw@[j].0 <= lw@[j].1 <= left@.len()
                    },
                digits@.len() == k,
                forall|j: int| 0 <= j < k ==> #[trigger] digits@[j]@ == wires_of(lp[j]),
                forall|j: int| 0 <= j < k ==> all_wires(#[trigger] lp[j]),
            decreases lw@.len() - k,
        {
            let (lo, hi) = lw[k];
            assert(lp[k as int] == left@.subrange(lo as int, hi as int));
            let mut w = [false; 7];
            let mut i = lo;
            while i < hi
                invariant
                    lo <= i <= hi <= left@.len(),
                    k < lp.len(),
                    left@ == split_pieces(s@, seq![' ', '|', ' '])[0],
                    lp == split_pieces(left@, seq![' ']),
                    lp[k as int] == left@.subrange(lo as int, hi as int),
                    w@.len() == 7,
                    forall|t: int| lo <= t < i ==> is_wire(#[trigger] left@[t]),
                    forall|x: int| 0 <= x < 7 ==> w@[x] == exists|t: int| lo <= t < i && wire_index(left@[t]) == x,
                decreases hi - i,
            {
                let c = left.get_char(i);
                if c < 'a' || c > 'g' {
                    assert(!is_wire(lp[k as int][i - lo]));
                    assert(!all_wires(lp[k as int]));
                    assert(!pattern_words_ok(left@));
                    return Err("not a wire");
                }
                let x = (c as u32 - 'a' as u32) as usize;
                w[x] = true;
                assert forall|y: int| 0 <= y < 7 implies w@[y] == exists|t: int| lo <= t < i + 1 && wire_index(left@[t]) == y by {
                    if y == x {
                        assert(wire_index(left@[i as int]) == y);
                    } else if exists|t: int| lo <= t < i + 1 && wire_index(left@[t]) == y {
                        let t = choose|t: int| lo <= t < i + 1 && wire_index(left@[t]) == y;
                        assert(t != i);
                    }
                }
                i = i + 1;
            }
            assert(w@ =~= wires_of(lp[k as int])) by {
                assert forall|x: int| 0 <= x < 7 implies w@[x] == wires_of(lp[k as int])[x] by {
                    if w@[x] {
                        let t = choose|t: int| lo <= t < hi && wire_index(left@[t]) == x;
                        assert(lp[k as int][t - lo] == left@[t]);
                    }
                    if wires_of(lp[k as int])[x] {
                        let j = choose|j: int| 0 <= j < lp[k as int].len() && wire_index(lp[k as int][j]) == x;
                        assert(lp[k as int][j] == left@[lo + j]);
                    }
                }
            }
            assert(all_wires(lp[k as int])) by {
                assert forall|t: int| 0 <= t < lp[k as int].len() implies is_wire(#[trigger] lp[k as int][t]) by {
                    assert(lp[k as int][t] == left@[lo + t]);
                }
            }
            digits.push(w);
            k = k + 1;
        }
        let rw = split_at_sep(right, " ");
        let ghost rp = split_pieces(right@, seq![' ']);
        let ghost rrr = split_ranges(right@, seq![' '], 0, 0);
        let mut outputs: Vec<Vec<char>> = Vec::new();
        let mut k: usize = 0;
        while k < rw.len()
            invariant
                k <= rw@.len(),
                rw@.len() == rrr.len(),
                rp == split_pieces(right@, seq![' ']),
                rrr == split_ranges(right@, seq![' '], 0, 0),
                rp.len() == rrr.len(),
                forall|j: int|
                    0 <= j < rw@.len() ==> {
                        &&& (#[trigger] rw@[j]).0 as int == rrr[j].0
                        &&& rw@[j].1 as int == rrr[j].1
                        &&& rw@[j].0 <= rw@[j].1 <= right@.len()
                    },
                outputs@.len() == k,
                forall|j: int| 0 <= j < k ==> #[trigger] outputs@[j]@ == rp[j],
            decreases rw@.len() - k,
        {
            let (lo, hi) = rw[k];
            assert(rp[k as int] == right@.subrange(lo as int, hi as int));
            outputs.push(chars_of(right.substring_char(lo, hi)));
            k = k + 1;
        }
        let sig = Signal { digits, outputs };
        assert(sig.patterns() =~= lp.map_values(|w: Seq<char>| wires_of(w)));
        assert(sig.output_words() =~= rp);
        assert(pattern_words_ok(left@));
        Ok(sig)
    }
}

fn all_wires_on() -> (r: [bool; 7])
    ensures
        r@ == Seq::new(7, |t: int| true),
{
    let mut r = [false; 7];
    let mut i: usize = 0;
    while i < 7
        invariant
            i <= 7,
            r@.len() == 7,
            forall|t: int| 0 <= t < i ==> r@[t],
        decreases 7 - i,
    {
        r[i] = true;
        i = i + 1;
    }
    assert(r@ =~= Seq::new(7, |t: int| true));
    r
}

/// The segment of each wire as integers.
pub open spec fn ints(m: Seq<i8>) -> Seq<int> {
    m.map_values(|v: i8| v as int)
}

/// The digit that `w` shows under `m`.
fn digit_shown(m: &[i8; 7], w: &Vec<char>) -> (r: Option<usize>)
    requires
        forall|i: int| 0 <= i < 7 ==> -1 <= #[trigger] m@[i] <= 6,
    ensures
        match r {
            Some(k) => digit_of(ints(m@), w@) == Some(k as int),
            None => digit_of(ints(m@), w@).is_none(),
        },
{
    let ghost im = ints(m@);
    let mut lit_arr = [false; 7];
    let mut j: usize = 0;
    while j < w.len()
        invariant
            j <= w@.len(),
            im == ints(m@),
            lit_arr@.len() == 7,
            forall|i: int| 0 <= i < 7 ==> -1 <= #[trigger] m@[i] <= 6,
            forall|t: int| 0 <= t < j ==> is_wire(#[trigger] w@[t]) && im[wire_index(w@[t])] >= 0,
            forall|x: int| 0 <= x < 7 ==> lit_arr@[x] == exists|t: int| 0 <= t < j && im[wire_index(w@[t])] == x,
        decreases w@.len() - j,
    {
        let c = w[j];
        if c < 'a' || c > 'g' {
            proof {
                assert(!all_mapped(im, w@));
                assert forall|k: int| 0 <= k < 10 implies !shows(im, w@, k) by {}
            }
            return None;
        }
        let x = (c as u32 - 'a' as u32) as usize;
        let seg = m[x];
        if seg < 0 {
            proof {
                assert(!all_mapped(im, w@));
                assert forall|k: int| 0 <= k < 10 implies !shows(im, w@, k) by {}
            }
            return None;
        }
        lit_arr[seg as usize] = true;
        assert forall|y: int| 0 <= y < 7 implies lit_arr@[y] == exists|t: int| 0 <= t < j + 1 && im[wire_index(w@[t])] == y by {
            if y == seg {
                assert(im[wire_index(w@[j as int])] == y);
            } else if exists|t: int| 0 <= t < j + 1 && im[wire_index(w@[t])] == y {
                let t = choose|t: int| 0 <= t < j + 1 && im[wire_index(w@[t])] == y;
                assert(t != j);
            }
        }
        j = j + 1;
    }
    assert(all_mapped(im, w@));
    assert(lit_arr@ =~= lit(im, w@));
    let mut k: usize = 0;
    while k < 10
        invariant
            k <= 10,
            im == ints(m@),
            all_mapped(im, w@),
            lit_arr@ == lit(im, w@),
            forall|t: int| 0 <= t < k ==> !shows(im, w@, t),
        decreases 10 - k,
    {
        let dg = digit_w(k);
        if same_w(&lit_arr, &dg) && w.len() == count_on(&dg) {
            proof {
                assert(shows(im, w@, k as int));
                let c = choose|c: int| 0 <= c < 10 && shows(im, w@, c) && forall|t: int| 0 <= t < c ==> !shows(im, w@, t);
                if c > k {
                    assert(!shows(im, w@, k as int));
                }
            }
            return Some(k);
        }
        k = k + 1;
    }
    None
}

impl Signal {
    /// Deduces which wire drives which segment from the ten patterns, and
    /// reads the number that the output words show. Fails where the patterns
    /// do not allow the deduction, where an output word shows no digit, or
    /// where the number does not fit a `usize`.
    pub fn deduce(&self) -> (r: Result<usize, &'static str>)
        ensures
            match r {
                Ok(v) => decode(self.patterns(), self.output_words()) == Some(v as int),
                Err(_) => match decode(self.patterns(), self.output_words()) {
                    Some(v) => v > usize::MAX,
                    None => true,
                },
            },
    {
        let ghost ps = self.patterns();
        let one = match unique_w(&self.digits, 2) {
            Some(p) => p,
            None => return Err("unique not found"),
        };
        let four = match unique_w(&self.digits, 4) {
            Some(p) => p,
            None => return Err("unique not found"),
        };
        let seven = match unique_w(&self.digits, 3) {
            Some(p) => p,
            None => return Err("unique not found"),
        };
        match unique_w(&self.digits, 7) {
            Some(_) => {},
            None => return Err("unique not found"),
        }
        let dc = minus_w(&four, &one);
        let a = match lowest_w(&minus_w(&seven, &one)) {
            Some(a) => a,
            None => return Err("could not find a"),
        };
        let d = match first_six(&self.digits, &dc, false) {
            Some(d) => d,
            None => return Err("could not find 0"),
        };
        let b = match lowest_w(&minus_w(&dc, &only_w(d))) {
            Some(b) => b,
            None => return Err("could not find b"),
        };
        let c = match first_six(&self.digits, &one, false) {
            Some(c) => c,
            None => return Err("could not find 6"),
        };
        let f = match lowest_w(&minus_w(&one, &only_w(c))) {
            Some(f) => f,
            None => return Err("could not find f"),
        };
        let mut m: [i8; 7] = [-1; 7];
        m[a] = 0;
        m[b] = 1;
        m[d] = 3;
        m[c] = 2;
        m[f] = 5;
        let ghost sm = Seq::new(7, |i: int| -1int).update(a as int, 0).update(b as int, 1).update(d as int, 3).update(
            c as int,
            2,
        ).update(f as int, 5);
        assert(ints(m@) =~= sm);
        let mut found = [false; 7];
        let mut i: usize = 0;
        while i < 7
            invariant
                i <= 7,
                found@.len() == 7,
                ints(m@) == sm,
                forall|t: int| 0 <= t < i ==> found@[t] == (sm[t] >= 0),
            decreases 7 - i,
        {
            found[i] = m[i] >= 0;
            i = i + 1;
        }
        assert(found@ =~= Seq::new(7, |t: int| sm[t] >= 0));
        let g = match first_six(&self.digits, &found, true) {
            Some(g) => g,
            None => return Err("could not find 9"),
        };
        let every = all_wires_on();
        let e = match lowest_w(&minus_w(&every, &union_w(&found, &only_w(g)))) {
            Some(e) => e,
            None => return Err("could not find e"),
        };
        m[g] = 6;
        m[e] = 4;
        let ghost fm = sm.update(g as int, 6).update(e as int, 4);
        assert(ints(m@) =~= fm);
        assert(deduced(ps) == Some(fm));
        assert forall|t: int| 0 <= t < 7 implies -1 <= #[trigger] m@[t] <= 6 by {
            assert(ints(m@)[t] == fm[t]);
        }
        let ghost outs = self.output_words();
        let mut acc: usize = 0;
        let mut k: usize = 0;
        while k < self.outputs.len()
            invariant
                k <= self.outputs@.len(),
                outs == self.output_words(),
                outs.len() == self.outputs@.len(),
                ints(m@) == fm,
                deduced(ps) == Some(fm),
                ps == self.patterns(),
                forall|t: int| 0 <= t < 7 ==> -1 <= #[trigger] m@[t] <= 6,
                shown_value(fm, outs.subrange(0, k as int)) == Some(acc as int),
            decreases self.outputs@.len() - k,
        {
            let ghost pre = outs.subrange(0, k as int);
            let ghost cur = outs.subrange(0, k + 1);
            assert(cur.drop_last() == pre);
            assert(cur.last() == self.outputs@[k as int]@);
            let dg = match digit_shown(&m, &self.outputs[k]) {
                Some(dg) => dg,
                None => {
                    proof {
                        if shown_value(fm, outs).is_some() {
                            lemma_shown_grows(fm, outs, k + 1);
                        }
                    }
                    return Err("not a digit");
                },
            };
            let next = match acc.checked_mul(10) {
                Some(t) => t.checked_add(dg),
                None => None,
            };
            match next {
                Some(t) => acc = t,
                None => {
                    proof {
                        if shown_value(fm, outs).is_some() {
                            lemma_shown_grows(fm, outs, k + 1);
                        }
                    }
                    return Err("number out of range");
                },
            }
            k = k + 1;
        }
        assert(outs.subrange(0, k as int) == outs);
        Ok(acc)
    }
}

/// A word length that only one digit has: that of 1, 4, 7 and 8.
pub open spec fn unique_length(n: nat) -> bool {
    n == 2 || n == 3 || n == 4 || n == 7
}

/// How many of the words have a unique length.
pub open spec fn unique_words(outs: Seq<Seq<char>>) -> nat
    decreases outs.len(),
{
    if outs.len() == 0 {
        0
    } else {
        unique_words(outs.drop_last()) + if unique_length(outs.last().len()) {
            1nat
        } else {
            0nat
        }
    }
}

impl Signal {
    /// How many output words show a 1, 4, 7 or 8, told apart by length alone.
    pub fn unique_outputs(&self) -> (r: usize)
        ensures
            r == unique_words(self.output_words()),
    {
        let ghost outs = self.output_words();
        let mut n: usize = 0;
        let mut k: usize = 0;
        while k < self.outputs.len()
            invariant
                k <= self.outputs@.len(),
                outs == self.output_words(),
                outs.len() == self.outputs@.len(),
                n == unique_words(outs.subrange(0, k as int)),
                n <= k,
            decreases self.outputs@.len() - k,
        {
            assert(outs.subrange(0, k + 1).drop_last() == outs.subrange(0, k as int));
            assert(outs[k as int] == self.outputs@[k as int]@);
            let len = self.outputs[k].len();
            if len == 2 || len == 3 || len == 4 || len == 7 {
                n = n + 1;
            }
            k = k + 1;
        }
        assert(outs.subrange(0, k as int) == outs);
        n
    }
}

/// The wires whose segment (under `perm`, wire to segment) is in `seg`.
pub open spec fn wires_for(perm: Seq<int>, seg: Seq<bool>) -> Seq<bool> {
    Seq::new(7, |w: int| seg[perm[w]])
}

/// `perm` is a wiring: each of the seven wires drives a different one of the
/// seven segments, and `inv` names the wire of each segment.
pub open spec fn is_wiring(perm: Seq<int>, inv: Seq<int>) -> bool {
    &&& perm.len() == 7
    &&& inv.len() == 7
    &&& forall|w: int| 0 <= w < 7 ==> 0 <= #[trigger] perm[w] < 7 && inv[perm[w]] == w
    &&& forall|g: int| 0 <= g < 7 ==> 0 <= #[trigger] inv[g] < 7 && perm[inv[g]] == g
}

/// The positions that are on.
pub open spec fn on_set(p: Seq<bool>) -> Set<int> {
    Set::new(|i: int| 0 <= i < p.len() && p[i])
}

proof fn lemma_count_is_size(p: Seq<bool>)
    ensures
        on_set(p).finite(),
        on_set(p).len() == count(p),
    decreases p.len(),
{
    broadcast use vstd::set::group_set_axioms;

    if p.len() == 0 {
        assert(on_set(p) =~= Set::empty());
    } else {
        let pre = p.drop_last();
        lemma_count_is_size(pre);
        let n = p.len() - 1;
        assert(!on_set(pre).contains(n));
        if p[n] {
            assert(on_set(p) =~= on_set(pre).insert(n));
        } else {
            assert(on_set(p) =~= on_set(pre));
        }
    }
}

/// Rewiring keeps the number of wires on.
proof fn lemma_count_wires_for(perm: Seq<int>, inv: Seq<int>, seg: Seq<bool>)
    requires
        is_wiring(perm, inv),
        seg.len() == 7,
    ensures
        count(wires_for(perm, seg)) == count(seg),
{
    let t = wires_for(perm, seg);
    lemma_count_is_size(t);
    lemma_count_is_size(seg);
    let f = |w: int| perm[w];
    assert(vstd::relations::injective_on(f, on_set(t))) by {
        assert forall|x: int, y: int| on_set(t).contains(x) && on_set(t).contains(y) && #[trigger] f(x) == #[trigger] f(y) implies x == y by {
            assert(inv[perm[x]] == x && inv[perm[y]] == y);
        }
    }
    assert(on_set(t).map(f) =~= on_set(seg)) by {
        assert forall|g: int| on_set(seg).contains(g) implies on_set(t).map(f).contains(g) by {
            let w = inv[g];
            assert(on_set(t).contains(w));
            assert(f(w) == g);
        }
    }
    vstd::set_lib::lemma_map_size(on_set(t), on_set(seg), f);
}

proof fn lemma_lowest_only(i: int)
    requires
        0 <= i < 7,
    ensures
        lowest(only(i)) == Some(i),
{
    assert forall|k: int| 0 <= k <= i implies lowest_from(only(i), k) == Some(i) by {
        lemma_lowest_only_from(i, k);
    }
}

proof fn lemma_lowest_only_from(i: int, k: int)
    requires
        0 <= k <= i < 7,
    ensures
        lowest_from(only(i), k) == Some(i),
    decreases i - k,
{
    if k < i {
        lemma_lowest_only_from(i, k + 1);
    }
}

proof fn lemma_with_count_single(ps: Seq<Seq<bool>>, n: nat, j0: int, k: int)
    requires
        0 <= j0 < ps.len(),
        0 <= k <= ps.len(),
        count(ps[j0]) == n,
        forall|j: int| 0 <= j < ps.len() && j != j0 ==> count(#[trigger] ps[j]) != n,
    ensures
        with_count(ps.subrange(0, k), n) == if j0 < k {
            1nat
        } else {
            0nat
        },
    decreases k,
{
    if k > 0 {
        let sub = ps.subrange(0, k);
        assert(sub.drop_last() == ps.subrange(0, k - 1));
        assert(sub.last() == ps[k - 1]);
        lemma_with_count_single(ps, n, j0, k - 1);
    } else {
        assert(ps.subrange(0, 0) =~= Seq::<Seq<bool>>::empty());
    }
}

/// Where exactly one pattern has `n` wires, it is the unique one.
proof fn lemma_unique_single(ps: Seq<Seq<bool>>, n: nat, j0: int)
    requires
        0 <= j0 < ps.len(),
        count(ps[j0]) == n,
        forall|j: int| 0 <= j < ps.len() && j != j0 ==> count(#[trigger] ps[j]) != n,
    ensures
        unique(ps, n) == Some(ps[j0]),
{
    lemma_with_count_single(ps, n, j0, ps.len() as int);
    assert(ps.subrange(0, ps.len() as int) == ps);
    let c = choose|k: int| 0 <= k < ps.len() && count(ps[k]) == n;
    assert(c == j0);
}

/// Where exactly one six-wire pattern leaves one wire of `x` uncovered, the
/// search finds it.
proof fn lemma_leaving_single(ps: Seq<Seq<bool>>, x: Seq<bool>, j0: int, k: int)
    requires
        0 <= j0 < ps.len(),
        0 <= k <= ps.len(),
        count(ps[j0]) == 6 && count(minus(x, ps[j0])) == 1,
        forall|j: int|
            0 <= j < ps.len() && j != j0 ==> !(count(#[trigger] ps[j]) == 6 && count(minus(x, ps[j])) == 1),
    ensures
        first_leaving(ps, x, k) == if k <= j0 {
            lowest(minus(x, ps[j0]))
        } else {
            None
        },
    decreases ps.len() - k,
{
    if k < ps.len() {
        lemma_leaving_single(ps, x, j0, k + 1);
    }
}

/// The same for the search for a pattern with one wire beyond `x`.
proof fn lemma_adding_single(ps: Seq<Seq<bool>>, x: Seq<bool>, j0: int, k: int)
    requires
        0 <= j0 < ps.len(),
        0 <= k <= ps.len(),
        count(ps[j0]) == 6 && count(minus(ps[j0], x)) == 1,
        forall|j: int|
            0 <= j < ps.len() && j != j0 ==> !(count(#[trigger] ps[j]) == 6 && count(minus(ps[j], x)) == 1),
    ensures
        first_adding(ps, x, k) == if k <= j0 {
            lowest(minus(ps[j0], x))
        } else {
            None
        },
    decreases ps.len() - k,
{
    if k < ps.len() {
        lemma_adding_single(ps, x, j0, k + 1);
    }
}

/// How many segments digit `k` lights.
pub open spec fn digit_size(k: int) -> nat {
    if k == 1 {
        2
    } else if k == 7 {
        3
    } else if k == 4 {
        4
    } else if k == 2 || k == 3 || k == 5 {
        5
    } else if k == 8 {
        7
    } else {
        6
    }
}

/// Segments `b` and `d`: those of 4 beyond those of 1.
pub open spec fn seg_bd() -> Seq<bool> {
    seq![false, true, false, true, false, false, false]
}

/// Segments `a`, `b`, `c`, `d` and `f`.
pub open spec fn seg_found() -> Seq<bool> {
    seq![true, true, true, true, false, true, false]
}

proof fn lemma_segment_facts()
    ensures
        forall|k: int| 0 <= k < 10 ==> #[trigger] count(digit_segments(k)) == digit_size(k) && digit_segments(k).len() == 7,
        minus(digit_segments(7), digit_segments(1)) == only(0),
        minus(digit_segments(4), digit_segments(1)) == seg_bd(),
        minus(seg_bd(), only(3)) == only(1),
        minus(seg_bd(), digit_segments(0)) == only(3),
        count(minus(seg_bd(), digit_segments(6))) == 0,
        count(minus(seg_bd(), digit_segments(9))) == 0,
        count(minus(digit_segments(1), digit_segments(0))) == 0,
        minus(digit_segments(1), digit_segments(6)) == only(2),
        count(minus(digit_segments(1), digit_segments(9))) == 0,
        minus(digit_segments(1), only(2)) == only(5),
        count(minus(digit_segments(0), seg_found())) == 2,
        count(minus(digit_segments(6), seg_found())) == 2,
        minus(digit_segments(9), seg_found()) == only(6),
        minus(Seq::new(7, |i: int| true), union(seg_found(), only(6))) == only(4),
        count(only(0)) == 1 && count(only(1)) == 1 && count(only(2)) == 1 && count(only(3)) == 1,
        count(only(4)) == 1 && count(only(5)) == 1 && count(only(6)) == 1,
{
    reveal_with_fuel(count, 8);
    assert(count(digit_segments(0)) == 6);
    assert(count(digit_segments(1)) == 2);
    assert(count(digit_segments(2)) == 5);
    assert(count(digit_segments(3)) == 5);
    assert(count(digit_segments(4)) == 4);
    assert(count(digit_segments(5)) == 5);
    assert(count(digit_segments(6)) == 6);
    assert(count(digit_segments(7)) == 3);
    assert(count(digit_segments(8)) == 7);
    assert(count(digit_segments(9)) == 6);
    assert(minus(digit_segments(7), digit_segments(1)) =~= only(0));
    assert(minus(digit_segments(4), digit_segments(1)) =~= seg_bd());
    assert(minus(seg_bd(), only(3)) =~= only(1));
    assert(minus(seg_bd(), digit_segments(0)) =~= only(3));
    assert(minus(seg_bd(), digit_segments(6)) =~= seq![false, false, false, false, false, false, false]);
    assert(minus(seg_bd(), digit_segments(9)) =~= seq![false, false, false, false, false, false, false]);
    assert(minus(digit_segments(1), digit_segments(0)) =~= seq![false, false, false, false, false, false, false]);
    assert(minus(digit_segments(1), digit_segments(6)) =~= only(2));
    assert(minus(digit_segments(1), digit_segments(9)) =~= seq![false, false, false, false, false, false, false]);
    assert(minus(digit_segments(1), only(2)) =~= only(5));
    assert(minus(digit_segments(0), seg_found()) =~= seq![false, false, false, false, true, false, true]);
    assert(minus(digit_segments(6), seg_found()) =~= seq![false, false, false, false, true, false, true]);
    assert(minus(digit_segments(9), seg_found()) =~= only(6));
    assert(minus(Seq::new(7, |i: int| true), union(seg_found(), only(6))) =~= only(4));
    assert(only(0) =~= seq![true, false, false, false, false, false, false]);
    assert(only(1) =~= seq![false, true, false, false, false, false, false]);
    assert(only(2) =~= seq![false, false, true, false, false, false, false]);
    assert(only(3) =~= seq![false, false, false, true, false, false, false]);
    assert(only(4) =~= seq![false, false, false, false, true, false, false]);
    assert(only(5) =~= seq![false, false, false, false, false, true, false]);
    assert(only(6) =~= seq![false, false, false, false, false, false, true]);
}

proof fn lemma_rewire(perm: Seq<int>, inv: Seq<int>)
    requires
        is_wiring(perm, inv),
    ensures
        forall|a: Seq<bool>, b: Seq<bool>|
            a.len() == 7 && b.len() == 7 ==> #[trigger] minus(wires_for(perm, a), wires_for(perm, b)) == wires_for(
                perm,
                minus(a, b),
            ),
        forall|a: Seq<bool>, b: Seq<bool>|
            a.len() == 7 && b.len() == 7 ==> #[trigger] union(wires_for(perm, a), wires_for(perm, b)) == wires_for(
                perm,
                union(a, b),
            ),
        forall|g: int| 0 <= g < 7 ==> #[trigger] wires_for(perm, only(g)) == only(inv[g]),
        wires_for(perm, Seq::new(7, |i: int| true)) == Seq::new(7, |i: int| true),
{
    assert forall|a: Seq<bool>, b: Seq<bool>| a.len() == 7 && b.len() == 7 implies #[trigger] minus(
        wires_for(perm, a),
        wires_for(perm, b),
    ) == wires_for(perm, minus(a, b)) by {
        assert(minus(wires_for(perm, a), wires_for(perm, b)) =~= wires_for(perm, minus(a, b)));
    }
    assert forall|a: Seq<bool>, b: Seq<bool>| a.len() == 7 && b.len() == 7 implies #[trigger] union(
        wires_for(perm, a),
        wires_for(perm, b),
    ) == wires_for(perm, union(a, b)) by {
        assert(union(wires_for(perm, a), wires_for(perm, b)) =~= wires_for(perm, union(a, b)));
    }
    assert forall|g: int| 0 <= g < 7 implies #[trigger] wires_for(perm, only(g)) == only(inv[g]) by {
        assert forall|w: int| 0 <= w < 7 implies wires_for(perm, only(g))[w] == only(inv[g])[w] by {
            if perm[w] == g {
                assert(inv[perm[w]] == w);
            }
            if w == inv[g] {
                assert(perm[inv[g]] == g);
            }
        }
        assert(wires_for(perm, only(g)) =~= only(inv[g]));
    }
    assert(wires_for(perm, Seq::new(7, |i: int| true)) =~= Seq::new(7, |i: int| true));
}

/// `ord` puts the ten digits in some order, `oinv` telling where each is.
pub open spec fn is_order(ord: Seq<int>, oinv: Seq<int>) -> bool {
    &&& ord.len() == 10
    &&& oinv.len() == 10
    &&& forall|j: int| 0 <= j < 10 ==> 0 <= #[trigger] ord[j] < 10 && oinv[ord[j]] == j
    &&& forall|k: int| 0 <= k < 10 ==> 0 <= #[trigger] oinv[k] < 10 && ord[oinv[k]] == k
}

/// The patterns are the ten digits in the order `ord` under the wiring.
pub open spec fn digits_under(perm: Seq<int>, inv: Seq<int>, ord: Seq<int>, oinv: Seq<int>, ps: Seq<Seq<bool>>) -> bool {
    &&& is_wiring(perm, inv)
    &&& is_order(ord, oinv)
    &&& ps.len() == 10
    &&& forall|j: int| 0 <= j < 10 ==> #[trigger] ps[j] == wires_for(perm, digit_segments(ord[j]))
}

proof fn lemma_pattern_counts(perm: Seq<int>, inv: Seq<int>, ord: Seq<int>, oinv: Seq<int>, ps: Seq<Seq<bool>>)
    requires
        digits_under(perm, inv, ord, oinv, ps),
    ensures
        forall|j: int| 0 <= j < 10 ==> #[trigger] count(ps[j]) == digit_size(ord[j]),
{
    lemma_segment_facts();
    assert forall|j: int| 0 <= j < 10 implies #[trigger] count(ps[j]) == digit_size(ord[j]) by {
        lemma_count_wires_for(perm, inv, digit_segments(ord[j]));
    }
}

proof fn lemma_uniques(perm: Seq<int>, inv: Seq<int>, ord: Seq<int>, oinv: Seq<int>, ps: Seq<Seq<bool>>)
    requires
        digits_under(perm, inv, ord, oinv, ps),
    ensures
        unique(ps, 2) == Some(wires_for(perm, digit_segments(1))),
        unique(ps, 4) == Some(wires_for(perm, digit_segments(4))),
        unique(ps, 3) == Some(wires_for(perm, digit_segments(7))),
        unique(ps, 7).is_some(),
{
    lemma_pattern_counts(perm, inv, ord, oinv, ps);
    lemma_unique_single(ps, 2, oinv[1]);
    lemma_unique_single(ps, 4, oinv[4]);
    lemma_unique_single(ps, 3, oinv[7]);
    lemma_unique_single(ps, 7, oinv[8]);
}

proof fn lemma_find_d(perm: Seq<int>, inv: Seq<int>, ord: Seq<int>, oinv: Seq<int>, ps: Seq<Seq<bool>>)
    requires
        digits_under(perm, inv, ord, oinv, ps),
    ensures
        first_leaving(ps, wires_for(perm, seg_bd()), 0) == Some(inv[3]),
{
    lemma_segment_facts();
    lemma_rewire(perm, inv);
    lemma_pattern_counts(perm, inv, ord, oinv, ps);
    let x = wires_for(perm, seg_bd());
    assert forall|j: int| 0 <= j < 10 implies #[trigger] count(minus(x, ps[j])) == count(
        minus(seg_bd(), digit_segments(ord[j])),
    ) by {
        lemma_count_wires_for(perm, inv, minus(seg_bd(), digit_segments(ord[j])));
    }
    lemma_leaving_single(ps, x, oinv[0], 0);
    lemma_lowest_only(inv[3]);
}

proof fn lemma_find_c(perm: Seq<int>, inv: Seq<int>, ord: Seq<int>, oinv: Seq<int>, ps: Seq<Seq<bool>>)
    requires
        digits_under(perm, inv, ord, oinv, ps),
    ensures
        first_leaving(ps, wires_for(perm, digit_segments(1)), 0) == Some(inv[2]),
{
    lemma_segment_facts();
    lemma_rewire(perm, inv);
    lemma_pattern_counts(perm, inv, ord, oinv, ps);
    let x = wires_for(perm, digit_segments(1));
    assert forall|j: int| 0 <= j < 10 implies #[trigger] count(minus(x, ps[j])) == count(
        minus(digit_segments(1), digit_segments(ord[j])),
    ) by {
        lemma_count_wires_for(perm, inv, minus(digit_segments(1), digit_segments(ord[j])));
    }
    lemma_leaving_single(ps, x, oinv[6], 0);
    lemma_lowest_only(inv[2]);
}

proof fn lemma_find_g(perm: Seq<int>, inv: Seq<int>, ord: Seq<int>, oinv: Seq<int>, ps: Seq<Seq<bool>>)
    requires
        digits_under(perm, inv, ord, oinv, ps),
    ensures
        first_adding(ps, wires_for(perm, seg_found()), 0) == Some(inv[6]),
{
    lemma_segment_facts();
    lemma_rewire(perm, inv);
    lemma_pattern_counts(perm, inv, ord, oinv, ps);
    let x = wires_for(perm, seg_found());
    assert forall|j: int| 0 <= j < 10 implies #[trigger] count(minus(ps[j], x)) == count(
        minus(digit_segments(ord[j]), seg_found()),
    ) by {
        lemma_count_wires_for(perm, inv, minus(digit_segments(ord[j]), seg_found()));
    }
    lemma_adding_single(ps, x, oinv[9], 0);
    lemma_lowest_only(inv[6]);
}

proof fn lemma_wiring_steps(perm: Seq<int>, inv: Seq<int>)
    requires
        is_wiring(perm, inv),
    ensures
        minus(wires_for(perm, digit_segments(4)), wires_for(perm, digit_segments(1))) == wires_for(perm, seg_bd()),
        minus(wires_for(perm, digit_segments(7)), wires_for(perm, digit_segments(1))) == only(inv[0]),
        minus(wires_for(perm, seg_bd()), only(inv[3])) == only(inv[1]),
        minus(wires_for(perm, digit_segments(1)), only(inv[2])) == only(inv[5]),
        minus(Seq::new(7, |i: int| true), union(wires_for(perm, seg_found()), only(inv[6]))) == only(inv[4]),
        lowest(only(inv[0])) == Some(inv[0]),
        lowest(only(inv[1])) == Some(inv[1]),
        lowest(only(inv[4])) == Some(inv[4]),
        lowest(only(inv[5])) == Some(inv[5]),
{
    lemma_segment_facts();
    lemma_rewire(perm, inv);
    assert(minus(wires_for(perm, digit_segments(4)), wires_for(perm, digit_segments(1))) == wires_for(
        perm,
        minus(digit_segments(4), digit_segments(1)),
    ));
    assert(minus(wires_for(perm, digit_segments(7)), wires_for(perm, digit_segments(1))) == wires_for(
        perm,
        minus(digit_segments(7), digit_segments(1)),
    ));
    assert(wires_for(perm, only(3)) == only(inv[3]));
    assert(minus(wires_for(perm, seg_bd()), wires_for(perm, only(3))) == wires_for(perm, minus(seg_bd(), only(3))));
    assert(wires_for(perm, only(2)) == only(inv[2]));
    assert(minus(wires_for(perm, digit_segments(1)), wires_for(perm, only(2))) == wires_for(
        perm,
        minus(digit_segments(1), only(2)),
    ));
    assert(wires_for(perm, only(6)) == only(inv[6]));
    assert(union(wires_for(perm, seg_found()), wires_for(perm, only(6))) == wires_for(perm, union(seg_found(), only(6))));
    assert(minus(wires_for(perm, Seq::new(7, |i: int| true)), wires_for(perm, union(seg_found(), only(6)))) == wires_for(
        perm,
        minus(Seq::new(7, |i: int| true), union(seg_found(), only(6))),
    ));
    assert(wires_for(perm, only(0)) == only(inv[0]));
    assert(wires_for(perm, only(1)) == only(inv[1]));
    assert(wires_for(perm, only(4)) == only(inv[4]));
    assert(wires_for(perm, only(5)) == only(inv[5]));
    lemma_lowest_only(inv[0]);
    lemma_lowest_only(inv[1]);
    lemma_lowest_only(inv[4]);
    lemma_lowest_only(inv[5]);
}

/// The segments known once `a`, `b`, `d`, `c` and `f` are found.
pub open spec fn partial_map(inv: Seq<int>) -> Seq<int> {
    Seq::new(7, |i: int| -1int).update(inv[0], 0).update(inv[1], 1).update(inv[3], 3).update(inv[2], 2).update(inv[5], 5)
}

proof fn lemma_partial_map(perm: Seq<int>, inv: Seq<int>)
    requires
        is_wiring(perm, inv),
    ensures
        Seq::new(7, |i: int| partial_map(inv)[i] >= 0) == wires_for(perm, seg_found()),
        partial_map(inv).update(inv[6], 6).update(inv[4], 4) == perm,
{
    let m = partial_map(inv);
    assert(Seq::new(7, |i: int| m[i] >= 0) =~= wires_for(perm, seg_found())) by {
        assert forall|w: int| 0 <= w < 7 implies Seq::new(7, |i: int| m[i] >= 0)[w] == wires_for(perm, seg_found())[w] by {
            assert(inv[perm[w]] == w);
        }
    }
    assert(m.update(inv[6], 6).update(inv[4], 4) =~= perm) by {
        assert forall|w: int| 0 <= w < 7 implies m.update(inv[6], 6).update(inv[4], 4)[w] == perm[w] by {
            assert(inv[perm[w]] == w);
        }
    }
}

/// Where the ten patterns are the ten digits, in any order, as some wiring
/// shows them, the deduction finds exactly that wiring; so a display reads as
/// the number its output words show under it.
pub proof fn lemma_deduce_wiring(
    perm: Seq<int>,
    inv: Seq<int>,
    ord: Seq<int>,
    oinv: Seq<int>,
    ps: Seq<Seq<bool>>,
    outs: Seq<Seq<char>>,
)
    requires
        digits_under(perm, inv, ord, oinv, ps),
    ensures
        deduced(ps) == Some(perm),
        decode(ps, outs) == shown_value(perm, outs),
{
    lemma_uniques(perm, inv, ord, oinv, ps);
    lemma_find_d(perm, inv, ord, oinv, ps);
    lemma_find_c(perm, inv, ord, oinv, ps);
    lemma_find_g(perm, inv, ord, oinv, ps);
    lemma_wiring_steps(perm, inv);
    lemma_partial_map(perm, inv);
}

} // verus!
