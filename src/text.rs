use vstd::prelude::*;

verus! {

pub open spec fn is_digit(c: char) -> bool {
    '0' <= c <= '9'
}

pub open spec fn all_digits(s: Seq<char>) -> bool {
    forall|i: int| 0 <= i < s.len() ==> is_digit(#[trigger] s[i])
}

/// The number that the decimal digits `s` write, most significant first.
pub open spec fn digits_value(s: Seq<char>) -> nat
    decreases s.len(),
{
    if s.len() == 0 {
        0
    } else {
        digits_value(s.drop_last()) * 10 + (s.last() as nat - '0' as nat) as nat
    }
}

/// The digits of an unsigned decimal literal: an optional `+` is skipped.
pub open spec fn unsigned_body(s: Seq<char>) -> Seq<char> {
    if s.len() > 0 && s[0] == '+' {
        s.subrange(1, s.len() as int)
    } else {
        s
    }
}

/// The value of an unsigned decimal literal, or `None` where `s` is not one:
/// an optional `+`, then one or more decimal digits.
pub open spec fn decimal(s: Seq<char>) -> Option<nat> {
    let body = unsigned_body(s);
    if body.len() > 0 && all_digits(body) {
        Some(digits_value(body))
    } else {
        None
    }
}

/// Reads the unsigned decimal literal held in `s[lo..hi]`; `None` where it is
/// not one, or where its value exceeds `max`.
pub fn parse_unsigned(s: &str, lo: usize, hi: usize, max: u64) -> (r: Option<u64>)
    requires
        lo <= hi <= s@.len(),
    ensures
        r == match decimal(s@.subrange(lo as int, hi as int)) {
            Some(v) => if v <= max {
                Some(v as u64)
            } else {
                None::<u64>
            },
            None => None,
        },
{
    let ghost t = s@.subrange(lo as int, hi as int);
    let mut start = lo;
    if lo < hi && s.get_char(lo) == '+' {
        start = lo + 1;
    }
    let ghost body = s@.subrange(start as int, hi as int);
    assert(body == unsigned_body(t));
    if start == hi {
        return None;
    }
    let mut acc: u64 = 0;
    let mut i = start;
    while i < hi
        invariant
            lo <= start <= i <= hi <= s@.len(),
            body == s@.subrange(start as int, hi as int),
            body == unsigned_body(t),
            t == s@.subrange(lo as int, hi as int),
            all_digits(s@.subrange(start as int, i as int)),
            acc == digits_value(s@.subrange(start as int, i as int)),
            acc <= max,
        decreases hi - i,
    {
        let c = s.get_char(i);
        if c < '0' || c > '9' {
            assert(body[i - start] == c);
            assert(!is_digit(body[i - start]));
            assert(!all_digits(body));
            assert(decimal(t).is_none());
            return None;
        }
        let d = (c as u32 - '0' as u32) as u64;
        let ghost pre = s@.subrange(start as int, i as int);
        let ghost next = s@.subrange(start as int, i + 1);
        assert(next.drop_last() == pre);
        if d > max || acc > (max - d) / 10 {
            assert(digits_value(next) > max) by (nonlinear_arith)
                requires
                    digits_value(next) == acc * 10 + d,
                    d > max || acc > (max - d) / 10,
                    acc >= 0,
            {
            }
            assert(body.subrange(0, i + 1 - start) == next);
            proof {
                lemma_digits_grow(body, (i + 1 - start) as nat);
                if all_digits(body) {
                    assert(digits_value(body) > max);
                }
            }
            assert(decimal(t).is_none() || decimal(t).unwrap() > max);
            return None;
        }
        assert(acc * 10 + d <= max) by (nonlinear_arith)
            requires
                acc <= (max - d) / 10,
                d <= max,
        {
        }
        acc = acc * 10 + d;
        i = i + 1;
    }
    assert(s@.subrange(start as int, i as int) == body);
    Some(acc)
}

/// Appending digits never lowers the value: a literal whose first `k` digits
/// already exceed a bound exceeds it too, unless it stops being one.
proof fn lemma_digits_grow(s: Seq<char>, k: nat)
    requires
        k <= s.len(),
    ensures
        all_digits(s) ==> digits_value(s.subrange(0, k as int)) <= digits_value(s),
    decreases s.len() - k,
{
    if k < s.len() && all_digits(s) {
        let t = s.subrange(0, k as int + 1);
        assert(t.drop_last() == s.subrange(0, k as int));
        lemma_digits_grow(s, k + 1);
        assert(s.subrange(0, s.len() as int) == s);
    } else if k == s.len() {
        assert(s.subrange(0, k as int) == s);
    }
}

/// The text between occurrences of `sep` in `s` (which is not empty), scanning
/// from `i` with the current piece begun at `start`, as index ranges.
pub open spec fn split_ranges(s: Seq<char>, sep: Seq<char>, i: int, start: int) -> Seq<(int, int)>
    decreases s.len() - i,
{
    if sep.len() == 0 || i + sep.len() > s.len() || i < 0 {
        seq![(start, s.len() as int)]
    } else if s.subrange(i, i + sep.len() as int) == sep {
        seq![(start, i)] + split_ranges(s, sep, i + sep.len(), i + sep.len())
    } else {
        split_ranges(s, sep, i + 1, start)
    }
}

/// The pieces of `s` between occurrences of a non-empty `sep`, as `str::split`
/// gives them.
pub open spec fn split_pieces(s: Seq<char>, sep: Seq<char>) -> Seq<Seq<char>> {
    split_ranges(s, sep, 0, 0).map_values(|r: (int, int)| s.subrange(r.0, r.1))
}

/// Whether `sep` occurs in `s` at `i`.
fn occurs_at(s: &str, n: usize, sep: &str, m: usize, i: usize) -> (r: bool)
    requires
        n == s@.len(),
        m == sep@.len(),
        i + m <= n,
    ensures
        r == (s@.subrange(i as int, i + m) == sep@),
{
    let mut j: usize = 0;
    while j < m
        invariant
            j <= m,
            i + m <= n,
            n == s@.len(),
            m == sep@.len(),
            forall|k: int| 0 <= k < j ==> s@[i + k] == sep@[k],
        decreases m - j,
    {
        if s.get_char(i + j) != sep.get_char(j) {
            assert(s@.subrange(i as int, i + m)[j as int] != sep@[j as int]);
            return false;
        }
        j = j + 1;
    }
    assert(s@.subrange(i as int, i + m) =~= sep@);
    true
}

/// The index ranges of the pieces of `s` between occurrences of `sep`, which
/// must not be empty.
pub fn split_at_sep(s: &str, sep: &str) -> (r: Vec<(usize, usize)>)
    requires
        sep@.len() > 0,
    ensures
        r@.len() == split_ranges(s@, sep@, 0, 0).len(),
        forall|k: int|
            0 <= k < r@.len() ==> {
                &&& (#[trigger] r@[k]).0 as int == split_ranges(s@, sep@, 0, 0)[k].0
                &&& r@[k].1 as int == split_ranges(s@, sep@, 0, 0)[k].1
                &&& r@[k].0 <= r@[k].1 <= s@.len()
            },
{
    let n = s.unicode_len();
    let m = sep.unicode_len();
    let mut out: Vec<(usize, usize)> = Vec::new();
    let mut i: usize = 0;
    let mut start: usize = 0;
    let ghost whole = split_ranges(s@, sep@, 0, 0);
    while m <= n && i <= n - m
        invariant
            n == s@.len(),
            m == sep@.len(),
            m > 0,
            start <= i <= n,
            out@.map_values(|p: (usize, usize)| (p.0 as int, p.1 as int)) + split_ranges(
                s@,
                sep@,
                i as int,
                start as int,
            ) == whole,
            forall|k: int| 0 <= k < out@.len() ==> (#[trigger] out@[k]).0 <= out@[k].1 <= n,
        decreases n - i,
    {
        if occurs_at(s, n, sep, m, i) {
            let ghost before = out@;
            out.push((start, i));
            assert(out@.map_values(|p: (usize, usize)| (p.0 as int, p.1 as int)) =~= before.map_values(
                |p: (usize, usize)| (p.0 as int, p.1 as int),
            ) + seq![(start as int, i as int)]);
            i = i + m;
            start = i;
        } else {
            i = i + 1;
        }
    }
    let ghost before = out@;
    out.push((start, n));
    assert(out@.map_values(|p: (usize, usize)| (p.0 as int, p.1 as int)) =~= before.map_values(
        |p: (usize, usize)| (p.0 as int, p.1 as int),
    ) + seq![(start as int, n as int)]);
    assert forall|k: int| 0 <= k < out@.len() implies (#[trigger] out@[k]).0 as int == whole[k].0 && out@[k].1 as int
        == whole[k].1 by {
        assert(out@.map_values(|p: (usize, usize)| (p.0 as int, p.1 as int))[k] == whole[k]);
    }
    out
}

/// The characters that `char::is_whitespace` accepts: those with the Unicode
/// `White_Space` property.
pub open spec fn is_space(c: char) -> bool {
    ('\u{9}' <= c <= '\u{d}') || c == ' ' || c == '\u{85}' || c == '\u{a0}' || c == '\u{1680}' || (
    '\u{2000}' <= c <= '\u{200a}') || c == '\u{2028}' || c == '\u{2029}' || c == '\u{202f}' || c
        == '\u{205f}' || c == '\u{3000}'
}

fn space(c: char) -> (r: bool)
    ensures
        r == is_space(c),
{
    ('\u{9}' <= c && c <= '\u{d}') || c == ' ' || c == '\u{85}' || c == '\u{a0}' || c == '\u{1680}' || (
    '\u{2000}' <= c && c <= '\u{200a}') || c == '\u{2028}' || c == '\u{2029}' || c == '\u{202f}' || c
        == '\u{205f}' || c == '\u{3000}'
}

/// The index ranges of the words of `s` from position `i` on, as
/// `str::split_whitespace` gives them; `start` is where the current word began,
/// or negative between words.
pub open spec fn word_ranges(s: Seq<char>, i: int, start: int) -> Seq<(int, int)>
    decreases s.len() - i,
{
    if i >= s.len() || i < 0 {
        if start >= 0 {
            seq![(start, s.len() as int)]
        } else {
            seq![]
        }
    } else if is_space(s[i]) {
        if start >= 0 {
            seq![(start, i)] + word_ranges(s, i + 1, -1)
        } else {
            word_ranges(s, i + 1, -1)
        }
    } else {
        word_ranges(s, i + 1, if start >= 0 { start } else { i })
    }
}

/// The words of `s`: maximal runs of characters that are not white space.
pub open spec fn words(s: Seq<char>) -> Seq<Seq<char>> {
    word_ranges(s, 0, -1).map_values(|r: (int, int)| s.subrange(r.0, r.1))
}

/// The index ranges of the words of `s`.
pub fn split_words(s: &str) -> (r: Vec<(usize, usize)>)
    ensures
        r@.len() == word_ranges(s@, 0, -1).len(),
        forall|k: int|
            0 <= k < r@.len() ==> {
                &&& (#[trigger] r@[k]).0 as int == word_ranges(s@, 0, -1)[k].0
                &&& r@[k].1 as int == word_ranges(s@, 0, -1)[k].1
                &&& r@[k].0 <= r@[k].1 <= s@.len()
            },
{
    let n = s.unicode_len();
    let mut out: Vec<(usize, usize)> = Vec::new();
    let mut i: usize = 0;
    let mut in_word = false;
    let mut start: usize = 0;
    let ghost whole = word_ranges(s@, 0, -1);
    while i < n
        invariant
            n == s@.len(),
            i <= n,
            in_word ==> start <= i,
            out@.map_values(|p: (usize, usize)| (p.0 as int, p.1 as int)) + word_ranges(
                s@,
                i as int,
                if in_word { start as int } else { -1 },
            ) == whole,
            forall|k: int| 0 <= k < out@.len() ==> (#[trigger] out@[k]).0 <= out@[k].1 <= n,
        decreases n - i,
    {
        let c = s.get_char(i);
        if space(c) {
            if in_word {
                let ghost before = out@;
                out.push((start, i));
                assert(out@.map_values(|p: (usize, usize)| (p.0 as int, p.1 as int)) =~= before.map_values(
                    |p: (usize, usize)| (p.0 as int, p.1 as int),
                ) + seq![(start as int, i as int)]);
            }
            in_word = false;
        } else if !in_word {
            in_word = true;
            start = i;
        }
        i = i + 1;
    }
    if in_word {
        let ghost before = out@;
        out.push((start, n));
        assert(out@.map_values(|p: (usize, usize)| (p.0 as int, p.1 as int)) =~= before.map_values(
            |p: (usize, usize)| (p.0 as int, p.1 as int),
        ) + seq![(start as int, n as int)]);
    } else {
        assert(out@.map_values(|p: (usize, usize)| (p.0 as int, p.1 as int)) =~= out@.map_values(
            |p: (usize, usize)| (p.0 as int, p.1 as int),
        ) + seq![]);
    }
    assert forall|k: int| 0 <= k < out@.len() implies (#[trigger] out@[k]).0 as int == whole[k].0 && out@[k].1 as int
        == whole[k].1 by {
        assert(out@.map_values(|p: (usize, usize)| (p.0 as int, p.1 as int))[k] == whole[k]);
    }
    out
}

/// The signed decimal literal `s` (an optional `-` or `+`, then digits), if it
/// fits an `i32`.
pub open spec fn spec_i32(s: Seq<char>) -> Option<i32> {
    if s.len() > 0 && s[0] == '-' {
        match decimal(s.subrange(1, s.len() as int)) {
            Some(v) => if v <= 0x8000_0000 && s.len() > 1 && s[1] != '+' {
                Some((0 - v) as i32)
            } else {
                None
            },
            None => None,
        }
    } else {
        match decimal(s) {
            Some(v) => if v <= i32::MAX {
                Some(v as i32)
            } else {
                None
            },
            None => None,
        }
    }
}

/// Reads a signed decimal `i32` from `s[lo..hi]`.
pub fn parse_i32(s: &str, lo: usize, hi: usize) -> (r: Option<i32>)
    requires
        lo <= hi <= s@.len(),
    ensures
        r == spec_i32(s@.subrange(lo as int, hi as int)),
{
    let ghost t = s@.subrange(lo as int, hi as int);
    if lo < hi && s.get_char(lo) == '-' {
        assert(t.subrange(1, t.len() as int) == s@.subrange(lo + 1, hi as int));
        if lo + 1 < hi && s.get_char(lo + 1) == '+' {
            return None;
        }
        match parse_unsigned(s, lo + 1, hi, 0x8000_0000) {
            Some(v) => Some((0 - (v as i64)) as i32),
            None => None,
        }
    } else {
        match parse_unsigned(s, lo, hi, i32::MAX as u64) {
            Some(v) => Some(v as i32),
            None => None,
        }
    }
}

/// Whether `s[lo..hi]` holds exactly the characters of `word`.
pub fn text_is(s: &str, lo: usize, hi: usize, word: &str) -> (r: bool)
    requires
        lo <= hi <= s@.len(),
    ensures
        r == (s@.subrange(lo as int, hi as int) == word@),
{
    let m = word.unicode_len();
    if hi - lo != m {
        return false;
    }
    let mut j: usize = 0;
    while j < m
        invariant
            j <= m,
            m == word@.len(),
            hi - lo == m,
            hi <= s@.len(),
            forall|k: int| 0 <= k < j ==> s@[lo + k] == word@[k],
        decreases m - j,
    {
        if s.get_char(lo + j) != word.get_char(j) {
            assert(s@.subrange(lo as int, hi as int)[j as int] != word@[j as int]);
            return false;
        }
        j = j + 1;
    }
    assert(s@.subrange(lo as int, hi as int) =~= word@);
    true
}

/// The characters of `s`.
pub fn chars_of(s: &str) -> (r: Vec<char>)
    ensures
        r@ == s@,
{
    let n = s.unicode_len();
    let mut out: Vec<char> = Vec::new();
    let mut i: usize = 0;
    while i < n
        invariant
            i <= n,
            n == s@.len(),
            out@ == s@.subrange(0, i as int),
        decreases n - i,
    {
        out.push(s.get_char(i));
        assert(out@ =~= s@.subrange(0, i + 1));
        i = i + 1;
    }
    assert(s@.subrange(0, n as int) == s@);
    out
}

} // verus!
