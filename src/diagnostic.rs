use vstd::prelude::*;
use vstd::arithmetic::power2::{lemma_pow2_pos, lemma_pow2_unfold, pow2};
use crate::text::chars_of;

verus! {

pub open spec fn digit_value(c: char) -> nat {
    (c as nat - '0' as nat) as nat
}

pub open spec fn digit_line(l: Seq<char>) -> bool {
    forall|j: int| 0 <= j < l.len() ==> '0' <= #[trigger] l[j] <= '9'
}

/// The column sums after the lines `ls`: before each line the sums are cut
/// or padded with zeros to its length, then its digits are added.
pub open spec fn column_sums(ls: Seq<Seq<char>>) -> Seq<nat>
    decreases ls.len(),
{
    if ls.len() == 0 {
        seq![]
    } else {
        let prev = column_sums(ls.drop_last());
        let l = ls.last();
        Seq::new(l.len(), |i: int| (if i < prev.len() { prev[i] } else { 0nat }) + digit_value(l[i]))
    }
}

/// The bits whose column sums exceed half the number of lines, first column
/// most significant.
pub open spec fn gamma_of(sums: Seq<nat>, lines: nat) -> nat
    decreases sums.len(),
{
    if sums.len() == 0 {
        0
    } else {
        gamma_of(sums.drop_last(), lines) * 2 + if sums.last() > lines / 2 {
            1nat
        } else {
            0nat
        }
    }
}

proof fn lemma_gamma_bound(sums: Seq<nat>, lines: nat)
    ensures
        gamma_of(sums, lines) < pow2(sums.len()),
    decreases sums.len(),
{
    lemma_pow2_pos(sums.len());
    if sums.len() > 0 {
        lemma_gamma_bound(sums.drop_last(), lines);
        lemma_pow2_unfold(sums.len());
    }
}

/// The gamma and epsilon rates of the report: gamma takes in each column the
/// bit that more than half the lines hold, epsilon the other. Fails where a
/// line holds a character that is not a decimal digit, or where the lines are
/// longer than 63 columns.
pub fn power_rates(lines: &Vec<String>) -> (r: Result<(u64, u64), &'static str>)
    requires
        lines@.len() <= u32::MAX,
    ensures
        match r {
            Ok((g, e)) => {
                let ls = lines@.map_values(|l: String| l@);
                let sums = column_sums(ls);
                &&& forall|k: int| 0 <= k < ls.len() ==> digit_line(#[trigger] ls[k])
                &&& sums.len() <= 63
                &&& g == gamma_of(sums, ls.len())
                &&& e == pow2(sums.len()) - 1 - gamma_of(sums, ls.len())
            },
            Err(_) => {
                let ls = lines@.map_values(|l: String| l@);
                (exists|k: int| 0 <= k < ls.len() && !digit_line(#[trigger] ls[k])) || column_sums(ls).len() > 63
            },
        },
{
    let ghost ls = lines@.map_values(|l: String| l@);
    let mut sums: Vec<u64> = Vec::new();
    let mut k: usize = 0;
    while k < lines.len()
        invariant
            k <= lines@.len() <= u32::MAX,
            ls == lines@.map_values(|l: String| l@),
            ls.len() == lines@.len(),
            forall|j: int| 0 <= j < k ==> digit_line(#[trigger] ls[j]),
            sums@.len() == column_sums(ls.subrange(0, k as int)).len(),
            forall|i: int| 0 <= i < sums@.len() ==> #[trigger] sums@[i] == column_sums(ls.subrange(0, k as int))[i],
            forall|i: int| 0 <= i < sums@.len() ==> #[trigger] sums@[i] <= 9 * k,
        decreases lines@.len() - k,
    {
        let line = chars_of(lines[k].as_str());
        assert(line@ == ls[k as int]);
        let ghost prev = column_sums(ls.subrange(0, k as int));
        let ghost cur = ls.subrange(0, k + 1);
        assert(cur.drop_last() == ls.subrange(0, k as int));
        assert(cur.last() == ls[k as int]);
        let mut next: Vec<u64> = Vec::new();
        let mut i: usize = 0;
        while i < line.len()
            invariant
                i <= line@.len(),
                k < lines@.len() <= u32::MAX,
                ls == lines@.map_values(|l: String| l@),
                ls.len() == lines@.len(),
                line@ == ls[k as int],
                sums@.len() == prev.len(),
                forall|t: int| 0 <= t < sums@.len() ==> #[trigger] sums@[t] == prev[t],
                forall|t: int| 0 <= t < sums@.len() ==> #[trigger] sums@[t] <= 9 * k,
                forall|t: int| 0 <= t < i ==> '0' <= #[trigger] line@[t] <= '9',
                next@.len() == i,
                forall|t: int|
                    0 <= t < i ==> #[trigger] next@[t] == (if t < prev.len() { prev[t] } else { 0nat }) + digit_value(line@[t]),
                forall|t: int| 0 <= t < i ==> #[trigger] next@[t] <= 9 * (k + 1),
            decreases line@.len() - i,
        {
            let c = line[i];
            if c < '0' || c > '9' {
                assert(!('0' <= line@[i as int] <= '9'));
                assert(!digit_line(ls[k as int]));
                assert(0 <= k < ls.len());
                return Err("not a digit");
            }
            let base: u64 = if i < sums.len() { sums[i] } else { 0 };
            next.push(base + (c as u32 - '0' as u32) as u64);
            i = i + 1;
        }
        assert(digit_line(ls[k as int]));
        proof {
            assert(next@.len() == column_sums(cur).len());
            assert forall|t: int| 0 <= t < next@.len() implies #[trigger] next@[t] == column_sums(cur)[t] by {}
        }
        sums = next;
        k = k + 1;
    }
    assert(ls.subrange(0, k as int) == ls);
    let n = sums.len();
    if n > 63 {
        return Err("too many columns");
    }
    let half = (lines.len() / 2) as u64;
    let mut g: u64 = 0;
    let mut i: usize = 0;
    let ghost all = column_sums(ls);
    while i < n
        invariant
            i <= n <= 63,
            n == all.len(),
            half == ls.len() / 2,
            forall|t: int| 0 <= t < n ==> #[trigger] sums@[t] == all[t],
            sums@.len() == n,
            g == gamma_of(all.subrange(0, i as int), ls.len()),
        decreases n - i,
    {
        proof {
            lemma_gamma_bound(all.subrange(0, i as int), ls.len());
            vstd::arithmetic::power2::lemma2_to64();
            vstd::arithmetic::power2::lemma2_to64_rest();
            if i < 63 {
                vstd::arithmetic::power2::lemma_pow2_strictly_increases(i as nat, 63);
            }
            assert(all.subrange(0, i + 1).drop_last() == all.subrange(0, i as int));
        }
        let bit: u64 = if sums[i] > half { 1 } else { 0 };
        g = g * 2 + bit;
        i = i + 1;
    }
    assert(all.subrange(0, n as int) == all);
    proof {
        lemma_gamma_bound(all, ls.len());
        vstd::arithmetic::power2::lemma2_to64();
        vstd::arithmetic::power2::lemma2_to64_rest();
        if n < 63 {
            vstd::arithmetic::power2::lemma_pow2_strictly_increases(n as nat, 63);
        }
    }
    let mut full: u64 = 0;
    let mut j: usize = 0;
    while j < n
        invariant
            j <= n <= 63,
            full == pow2(j as nat) - 1,
            pow2(63) == 0x8000_0000_0000_0000,
        decreases n - j,
    {
        proof {
            lemma_pow2_unfold((j + 1) as nat);
            lemma_pow2_pos(j as nat);
            if j + 1 < 63 {
                vstd::arithmetic::power2::lemma_pow2_strictly_increases((j + 1) as nat, 63);
            }
        }
        full = full * 2 + 1;
        j = j + 1;
    }
    Ok((g, full - g))
}

/// The lines without repeats, each where it first occurs.
pub open spec fn dedup(ls: Seq<Seq<char>>) -> Seq<Seq<char>>
    decreases ls.len(),
{
    if ls.len() == 0 {
        seq![]
    } else {
        let d = dedup(ls.drop_last());
        if d.contains(ls.last()) {
            d
        } else {
            d.push(ls.last())
        }
    }
}

/// The sum of the digits in column `i` of the candidates.
pub open spec fn col_sum(cands: Seq<Seq<char>>, i: int) -> nat
    decreases cands.len(),
{
    if cands.len() == 0 {
        0
    } else {
        col_sum(cands.drop_last(), i) + digit_value(cands.last()[i])
    }
}

/// The digit that the candidates keep in column `i`. Where all hold `0` or
/// all hold `1`, that digit. Otherwise, with `count` the sum of the column's
/// digits and `total` the number of candidates, the oxygen rating keeps `1`
/// when `count >= total / 2` (integer division) and `0` otherwise, and the
/// scrubber rating keeps the other digit. With an odd total this can keep the
/// digit fewer candidates hold: 2 ones of 5 keep `1` for oxygen.
pub open spec fn pick(cands: Seq<Seq<char>>, i: int, oxygen: bool) -> char {
    let count = col_sum(cands, i);
    let total = cands.len();
    if count == 0 {
        '0'
    } else if count == total {
        '1'
    } else if oxygen {
        if count >= total / 2 {
            '1'
        } else {
            '0'
        }
    } else {
        if count >= total / 2 {
            '0'
        } else {
            '1'
        }
    }
}

/// The candidates with `ch` in column `i`.
pub open spec fn keep(cands: Seq<Seq<char>>, i: int, ch: char) -> Seq<Seq<char>>
    decreases cands.len(),
{
    if cands.len() == 0 {
        seq![]
    } else {
        keep(cands.drop_last(), i, ch) + if cands.last()[i] == ch {
            seq![cands.last()]
        } else {
            seq![]
        }
    }
}

/// The candidates left after narrowing by columns `i` to `n - 1` in turn.
pub open spec fn narrowed(cands: Seq<Seq<char>>, i: int, n: int, oxygen: bool) -> Seq<Seq<char>>
    decreases n - i,
{
    if i >= n {
        cands
    } else {
        narrowed(keep(cands, i, pick(cands, i, oxygen)), i + 1, n, oxygen)
    }
}

/// The number that the binary digits `s` write, if they are all binary.
pub open spec fn binary(s: Seq<char>) -> Option<nat>
    decreases s.len(),
{
    if s.len() == 0 {
        Some(0)
    } else {
        match binary(s.drop_last()) {
            Some(v) => if s.last() == '0' {
                Some(v * 2)
            } else if s.last() == '1' {
                Some(v * 2 + 1)
            } else {
                None
            },
            None => None,
        }
    }
}

/// All lines have `n` digits.
pub open spec fn uniform(ls: Seq<Seq<char>>, n: nat) -> bool {
    forall|k: int| 0 <= k < ls.len() ==> (#[trigger] ls[k]).len() == n && digit_line(ls[k])
}

/// The rating: the line left after narrowing by every column, read as a
/// binary number. `None` where there are no lines, they differ in length or
/// are empty, hold a character that is not a digit, or leave other than one
/// line, or where that line is not binary.
pub open spec fn rating_of(ls: Seq<Seq<char>>, oxygen: bool) -> Option<nat> {
    if ls.len() == 0 || ls[0].len() == 0 || !uniform(ls, ls[0].len()) {
        None
    } else {
        let left = narrowed(dedup(ls), 0, ls[0].len() as int, oxygen);
        if left.len() == 1 {
            binary(left[0])
        } else {
            None
        }
    }
}

proof fn lemma_keep_props(cands: Seq<Seq<char>>, i: int, ch: char, n: nat)
    requires
        uniform(cands, n),
    ensures
        uniform(keep(cands, i, ch), n),
        keep(cands, i, ch).len() <= cands.len(),
    decreases cands.len(),
{
    if cands.len() > 0 {
        let pre = cands.drop_last();
        assert forall|k: int| 0 <= k < pre.len() implies (#[trigger] pre[k]).len() == n && digit_line(pre[k]) by {
            assert(pre[k] == cands[k]);
        }
        lemma_keep_props(pre, i, ch, n);
        assert(cands.last() == cands[cands.len() - 1]);
        let kk = keep(cands, i, ch);
        assert forall|k: int| 0 <= k < kk.len() implies (#[trigger] kk[k]).len() == n && digit_line(kk[k]) by {
            if k < keep(pre, i, ch).len() {
                assert(kk[k] == keep(pre, i, ch)[k]);
            }
        }
    }
}

proof fn lemma_dedup_props(ls: Seq<Seq<char>>, n: nat)
    requires
        uniform(ls, n),
    ensures
        uniform(dedup(ls), n),
        ls.len() > 0 ==> dedup(ls).len() > 0,
        dedup(ls).len() <= ls.len(),
    decreases ls.len(),
{
    if ls.len() > 0 {
        let pre = ls.drop_last();
        assert forall|k: int| 0 <= k < pre.len() implies (#[trigger] pre[k]).len() == n && digit_line(pre[k]) by {
            assert(pre[k] == ls[k]);
        }
        lemma_dedup_props(pre, n);
        assert(ls.last() == ls[ls.len() - 1]);
        let d = dedup(ls);
        assert forall|k: int| 0 <= k < d.len() implies (#[trigger] d[k]).len() == n && digit_line(d[k]) by {
            if k < dedup(pre).len() {
                assert(d[k] == dedup(pre)[k]);
            }
        }
        if dedup(pre).contains(ls.last()) {
            assert(dedup(pre).len() > 0);
        }
    }
}

/// Whether two lines hold the same characters.
fn same_line(a: &Vec<char>, b: &Vec<char>) -> (r: bool)
    ensures
        r == (a@ == b@),
{
    if a.len() != b.len() {
        return false;
    }
    let mut i: usize = 0;
    while i < a.len()
        invariant
            i <= a@.len(),
            a@.len() == b@.len(),
            forall|t: int| 0 <= t < i ==> a@[t] == b@[t],
        decreases a@.len() - i,
    {
        if a[i] != b[i] {
            return false;
        }
        i = i + 1;
    }
    assert(a@ =~= b@);
    true
}

pub open spec fn line_view(v: Seq<Vec<char>>) -> Seq<Seq<char>> {
    v.map_values(|l: Vec<char>| l@)
}

/// One of the two life support ratings of the report: the oxygen generator
/// rating where `oxygen` holds, the CO2 scrubber rating where not.
pub fn rating(lines: &Vec<String>, oxygen: bool) -> (r: Option<u64>)
    requires
        lines@.len() <= u32::MAX,
    ensures
        r == match rating_of(lines@.map_values(|l: String| l@), oxygen) {
            Some(v) => if v <= u64::MAX {
                Some(v as u64)
            } else {
                None::<u64>
            },
            None => None,
        },
{
    let ghost ls = lines@.map_values(|l: String| l@);
    if lines.len() == 0 {
        return None;
    }
    let mut all: Vec<Vec<char>> = Vec::new();
    let mut k: usize = 0;
    while k < lines.len()
        invariant
            k <= lines@.len(),
            ls == lines@.map_values(|l: String| l@),
            ls.len() == lines@.len(),
            line_view(all@) == ls.subrange(0, k as int),
        decreases lines@.len() - k,
    {
        let l = chars_of(lines[k].as_str());
        assert(l@ == ls[k as int]);
        let ghost before = all@;
        let ghost lv = l@;
        assert(line_view(before).len() == before.len());
        assert(before.len() == k);
        all.push(l);
        assert(all@[k as int]@ == lv);
        assert(line_view(all@) =~= ls.subrange(0, k + 1)) by {
            assert forall|t: int| 0 <= t < k + 1 implies line_view(all@)[t] == ls.subrange(0, k + 1)[t] by {
                if t < k {
                    assert(all@[t] == before[t]);
                    assert(line_view(before)[t] == ls.subrange(0, k as int)[t]);
                }
            }
        }
        k = k + 1;
    }
    assert(ls.subrange(0, k as int) == ls);
    assert(all@[0]@ == ls[0]);
    let n = all[0].len();
    if n == 0 {
        return None;
    }
    let mut k: usize = 0;
    while k < all.len()
        invariant
            k <= all@.len(),
            line_view(all@) == ls,
            ls == lines@.map_values(|l: String| l@),
            ls.len() > 0,
            n > 0,
            n == ls[0].len(),
            forall|j: int| 0 <= j < k ==> (#[trigger] ls[j]).len() == n && digit_line(ls[j]),
        decreases all@.len() - k,
    {
        assert(all@[k as int]@ == ls[k as int]);
        if all[k].len() != n {
            assert(!uniform(ls, ls[0].len()));
            return None;
        }
        let mut i: usize = 0;
        while i < n
            invariant
                i <= n,
                all@[k as int]@ == ls[k as int],
                k < all@.len(),
                ls == lines@.map_values(|l: String| l@),
                ls.len() > 0,
                n > 0,
                n == ls[0].len(),
                line_view(all@) == ls,
                ls[k as int].len() == n,
                forall|t: int| 0 <= t < i ==> '0' <= #[trigger] ls[k as int][t] <= '9',
            decreases n - i,
        {
            let c = all[k][i];
            if c < '0' || c > '9' {
                assert(!digit_line(ls[k as int]));
                assert(!uniform(ls, ls[0].len()));
                return None;
            }
            i = i + 1;
        }
        k = k + 1;
    }
    assert(uniform(ls, n as nat));
    let mut cands: Vec<Vec<char>> = Vec::new();
    let mut k: usize = 0;
    while k < all.len()
        invariant
            k <= all@.len(),
            line_view(all@) == ls,
            line_view(cands@) == dedup(ls.subrange(0, k as int)),
        decreases all@.len() - k,
    {
        let ghost pre = ls.subrange(0, k as int);
        assert(ls.subrange(0, k + 1).drop_last() == pre);
        assert(ls.subrange(0, k + 1).last() == all@[k as int]@);
        let mut seen = false;
        let mut j: usize = 0;
        while j < cands.len()
            invariant
                j <= cands@.len(),
                k < all@.len(),
                seen == exists|t: int| 0 <= t < j && cands@[t]@ == all@[k as int]@,
            decreases cands@.len() - j,
        {
            if same_line(&cands[j], &all[k]) {
                seen = true;
            }
            j = j + 1;
        }
        proof {
            let d = dedup(pre);
            assert(d.contains(all@[k as int]@) == seen) by {
                if seen {
                    let t = choose|t: int| 0 <= t < cands@.len() && cands@[t]@ == all@[k as int]@;
                    assert(d[t] == cands@[t]@);
                }
                if d.contains(all@[k as int]@) {
                    let t = choose|t: int| 0 <= t < d.len() && d[t] == all@[k as int]@;
                    assert(cands@[t]@ == d[t]);
                }
            }
        }
        if !seen {
            let l = chars_of_vec(&all[k]);
            let ghost before = cands@;
            cands.push(l);
            assert(line_view(cands@) =~= line_view(before).push(all@[k as int]@));
        }
        k = k + 1;
    }
    assert(ls.subrange(0, k as int) == ls);
    proof {
        lemma_dedup_props(ls, n as nat);
    }
    let mut i: usize = 0;
    while i < n
        invariant
            i <= n,
            n == ls[0].len(),
            lines@.len() <= u32::MAX,
            ls.len() == lines@.len(),
            uniform(line_view(cands@), n as nat),
            line_view(cands@).len() <= ls.len(),
            narrowed(line_view(cands@), i as int, n as int, oxygen) == narrowed(dedup(ls), 0, n as int, oxygen),
        decreases n - i,
    {
        let ghost cv = line_view(cands@);
        let mut count: u64 = 0;
        let mut j: usize = 0;
        while j < cands.len()
            invariant
                j <= cands@.len(),
                i < n,
                cv == line_view(cands@),
                uniform(cv, n as nat),
                cv.len() <= u32::MAX,
                count == col_sum(cv.subrange(0, j as int), i as int),
                count <= 9 * j,
            decreases cands@.len() - j,
        {
            assert(cv.subrange(0, j + 1).drop_last() == cv.subrange(0, j as int));
            assert(cv[j as int] == cands@[j as int]@);
            assert(cv[j as int].len() == n && digit_line(cv[j as int]));
            let c = cands[j][i];
            assert('0' <= c <= '9');
            count = count + (c as u32 - '0' as u32) as u64;
            j = j + 1;
        }
        assert(cv.subrange(0, j as int) == cv);
        let total = cands.len() as u64;
        let ch = if count == 0 {
            '0'
        } else if count == total {
            '1'
        } else if oxygen {
            if count >= total / 2 { '1' } else { '0' }
        } else {
            if count >= total / 2 { '0' } else { '1' }
        };
        assert(ch == pick(cv, i as int, oxygen));
        let mut next: Vec<Vec<char>> = Vec::new();
        let mut j: usize = 0;
        while j < cands.len()
            invariant
                j <= cands@.len(),
                i < n,
                cv == line_view(cands@),
                uniform(cv, n as nat),
                line_view(next@) == keep(cv.subrange(0, j as int), i as int, ch),
            decreases cands@.len() - j,
        {
            assert(cv.subrange(0, j + 1).drop_last() == cv.subrange(0, j as int));
            assert(cv[j as int] == cands@[j as int]@);
            assert(cv.subrange(0, j + 1).last() == cv[j as int]);
            if cands[j][i] == ch {
                let l = chars_of_vec(&cands[j]);
                let ghost before = next@;
                next.push(l);
                assert(line_view(next@) =~= line_view(before) + seq![cv[j as int]]);
            }
            j = j + 1;
        }
        assert(cv.subrange(0, j as int) == cv);
        proof {
            lemma_keep_props(cv, i as int, ch, n as nat);
        }
        cands = next;
        i = i + 1;
    }
    assert(narrowed(line_view(cands@), n as int, n as int, oxygen) == line_view(cands@));
    assert(rating_of(ls, oxygen) == if line_view(cands@).len() == 1 {
        binary(line_view(cands@)[0])
    } else {
        None
    });
    if cands.len() != 1 {
        return None;
    }
    let w = &cands[0];
    assert(w@ == line_view(cands@)[0]);
    let mut v: u64 = 0;
    let mut t: usize = 0;
    proof {
        vstd::arithmetic::power2::lemma2_to64();
        vstd::arithmetic::power2::lemma2_to64_rest();
    }
    while t < w.len()
        invariant
            t <= w@.len(),
            ls == lines@.map_values(|l: String| l@),
            rating_of(ls, oxygen) == binary(w@),
            binary(w@.subrange(0, t as int)) == Some(v as nat),
            (v as nat) < pow2(t as nat),
        decreases w@.len() - t,
    {
        assert(w@.subrange(0, t + 1).drop_last() == w@.subrange(0, t as int));
        let c = w[t];
        assert(w@.subrange(0, t + 1).last() == c);
        if c != '0' && c != '1' {
            proof {
                lemma_binary_none(w@, t as int + 1);
            }
            return None;
        }
        if v > (u64::MAX - 1) / 2 {
            proof {
                assert(binary(w@.subrange(0, t + 1)) == Some((v * 2 + if c == '1' { 1nat } else { 0nat }) as nat));
                lemma_binary_grows(w@, t as int + 1);
            }
            return None;
        }
        proof {
            lemma_pow2_unfold((t + 1) as nat);
        }
        v = v * 2 + if c == '1' { 1 } else { 0 };
        t = t + 1;
    }
    assert(w@.subrange(0, t as int) == w@);
    Some(v)
}

/// A copy of the line.
fn chars_of_vec(l: &Vec<char>) -> (r: Vec<char>)
    ensures
        r@ == l@,
{
    let mut out: Vec<char> = Vec::new();
    let mut i: usize = 0;
    while i < l.len()
        invariant
            i <= l@.len(),
            out@ == l@.subrange(0, i as int),
        decreases l@.len() - i,
    {
        out.push(l[i]);
        assert(out@ =~= l@.subrange(0, i + 1));
        i = i + 1;
    }
    assert(l@.subrange(0, i as int) == l@);
    out
}

/// A prefix that is not binary leaves the whole not binary.
proof fn lemma_binary_none(s: Seq<char>, k: int)
    requires
        0 <= k <= s.len(),
        binary(s.subrange(0, k)).is_none(),
    ensures
        binary(s).is_none(),
    decreases s.len() - k,
{
    if k < s.len() {
        assert(s.subrange(0, k + 1).drop_last() == s.subrange(0, k));
        lemma_binary_none(s, k + 1);
    } else {
        assert(s.subrange(0, k) == s);
    }
}

/// A binary number is at least the value of any of its prefixes.
proof fn lemma_binary_grows(s: Seq<char>, k: int)
    requires
        0 <= k <= s.len(),
    ensures
        binary(s).is_some() ==> binary(s.subrange(0, k)).is_some() && binary(s.subrange(0, k)).unwrap() <= binary(
            s,
        ).unwrap(),
    decreases s.len() - k,
{
    if k < s.len() {
        assert(s.subrange(0, k + 1).drop_last() == s.subrange(0, k));
        lemma_binary_grows(s, k + 1);
    } else {
        assert(s.subrange(0, k) == s);
    }
}

} // verus!
