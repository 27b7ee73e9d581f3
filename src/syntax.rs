use vstd::prelude::*;
use crate::order::{ascending, sort_ascending};

verus! {

/// How a line of brackets scores: the points of its first illegal closer, or,
/// where it has none, the score of the closers that would complete it.
#[derive(Debug, Clone, Copy, PartialEq, Eq, Structural)]
pub enum Score {
    CompleteScore(u64),
    ErrorScore(u64),
}

/// The value paired with the first entry of `xs` whose key is `c`.
pub fn lookup<T: Copy>(xs: &[(char, T)], c: char) -> (r: Result<T, &'static str>)
    ensures
        match r {
            Ok(t) => exists|i: int|
                0 <= i < xs@.len() && xs@[i] == (c, t) && forall|j: int| 0 <= j < i ==> xs@[j].0 != c,
            Err(_) => forall|i: int| 0 <= i < xs@.len() ==> xs@[i].0 != c,
        },
{
    let mut i: usize = 0;
    while i < xs.len()
        invariant
            i <= xs@.len(),
            forall|j: int| 0 <= j < i ==> xs@[j].0 != c,
        decreases xs@.len() - i,
    {
        if xs[i].0 == c {
            return Ok(xs[i].1);
        }
        i = i + 1;
    }
    Err("bad lookup")
}

pub open spec fn is_opener(c: char) -> bool {
    c == '(' || c == '[' || c == '{' || c == '<'
}

pub open spec fn is_closer(c: char) -> bool {
    c == ')' || c == ']' || c == '}' || c == '>'
}

/// The closer that matches the opener `c`.
pub open spec fn closer_of(c: char) -> char {
    if c == '(' {
        ')'
    } else if c == '[' {
        ']'
    } else if c == '{' {
        '}'
    } else {
        '>'
    }
}

/// The points for an illegal closer `c`.
pub open spec fn error_points(c: char) -> u64 {
    if c == ')' {
        3
    } else if c == ']' {
        57
    } else if c == '}' {
        1197
    } else {
        25137
    }
}

/// The points for completing the opener `c`.
pub open spec fn completion_points(c: char) -> nat {
    if c == '(' {
        1
    } else if c == '[' {
        2
    } else if c == '{' {
        3
    } else {
        4
    }
}

/// The completion score of the openers left on `stack`: the innermost (last)
/// is closed first, and each closer multiplies the score so far by five and adds
/// its points.
pub open spec fn completion_value(stack: Seq<char>) -> nat
    decreases stack.len(),
{
    if stack.len() == 0 {
        0
    } else {
        completion_value(stack.drop_first()) * 5 + completion_points(stack[0])
    }
}

/// Why a line has no score.
#[derive(Debug, Clone, Copy, PartialEq, Eq, Structural)]
pub enum ScoreFault {
    /// A character that is no bracket.
    BadCharacter,
    /// A completion score past `u64::MAX`.
    OutOfRange,
}

/// The result of scoring `s` from position `i` with the openers `stack`
/// pending, or why there is none.
pub open spec fn score_from(s: Seq<char>, i: int, stack: Seq<char>) -> Result<Score, ScoreFault>
    decreases s.len() - i,
{
    if i >= s.len() || i < 0 {
        if completion_value(stack) <= u64::MAX {
            Ok(Score::CompleteScore(completion_value(stack) as u64))
        } else {
            Err(ScoreFault::OutOfRange)
        }
    } else if is_opener(s[i]) {
        score_from(s, i + 1, stack.push(s[i]))
    } else if is_closer(s[i]) {
        if stack.len() == 0 || closer_of(stack.last()) != s[i] {
            Ok(Score::ErrorScore(error_points(s[i])))
        } else {
            score_from(s, i + 1, stack.drop_last())
        }
    } else {
        Err(ScoreFault::BadCharacter)
    }
}

fn opens() -> (r: Vec<char>)
    ensures
        r@ == seq!['(', '[', '{', '<'],
{
    vec!['(', '[', '{', '<']
}

fn closes() -> (r: Vec<char>)
    ensures
        r@ == seq![')', ']', '}', '>'],
{
    vec![')', ']', '}', '>']
}

fn matches_table() -> (r: Vec<(char, char)>)
    ensures
        r@ == seq![('(', ')'), ('[', ']'), ('{', '}'), ('<', '>')],
{
    vec![('(', ')'), ('[', ']'), ('{', '}'), ('<', '>')]
}

fn scoring_table() -> (r: Vec<(char, u64)>)
    ensures
        r@ == seq![(')', 3u64), (']', 57u64), ('}', 1197u64), ('>', 25137u64)],
{
    vec![(')', 3), (']', 57), ('}', 1197), ('>', 25137)]
}

fn complete_table() -> (r: Vec<(char, u64)>)
    ensures
        r@ == seq![('(', 1u64), ('[', 2u64), ('{', 3u64), ('<', 4u64)],
{
    vec![('(', 1), ('[', 2), ('{', 3), ('<', 4)]
}

fn contains_char(v: &Vec<char>, c: char) -> (r: bool)
    ensures
        r == v@.contains(c),
{
    let mut i: usize = 0;
    while i < v.len()
        invariant
            i <= v@.len(),
            forall|j: int| 0 <= j < i ==> v@[j] != c,
        decreases v@.len() - i,
    {
        if v[i] == c {
            return true;
        }
        i = i + 1;
    }
    false
}

/// A longer tail of pending openers never scores lower.
proof fn lemma_completion_grows(stack: Seq<char>, j: int)
    requires
        0 <= j <= stack.len(),
    ensures
        completion_value(stack.subrange(j, stack.len() as int)) <= completion_value(stack),
    decreases j,
{
    if j > 0 {
        let t = stack.subrange(j - 1, stack.len() as int);
        assert(t.drop_first() == stack.subrange(j, stack.len() as int));
        lemma_completion_grows(stack, j - 1);
    } else {
        assert(stack.subrange(0, stack.len() as int) == stack);
    }
}

/// Scores one line of brackets: the first closer that does not match the
/// innermost pending opener (or comes with none pending) gives an error score;
/// a line without one gives the score of completing it. A character that is no
/// bracket fails with `invalid character`, a completion score past `u64::MAX`
/// with `completion score out of range`.
pub fn parse_score(s: &str) -> (r: Result<Score, &'static str>)
    ensures
        match r {
            Ok(sc) => score_from(s@, 0, seq![]) == Ok::<Score, ScoreFault>(sc),
            Err(e) => {
                ||| score_from(s@, 0, seq![]) == Err::<Score, ScoreFault>(ScoreFault::BadCharacter) && e
                    == "invalid character"
                ||| score_from(s@, 0, seq![]) == Err::<Score, ScoreFault>(ScoreFault::OutOfRange) && e
                    == "completion score out of range"
            },
        },
{
    let n = s.unicode_len();
    let opens = opens();
    let closes = closes();
    let matches = matches_table();
    let scoring = scoring_table();
    let mut stack: Vec<char> = Vec::new();
    let mut i: usize = 0;
    while i < n
        invariant
            i <= n,
            n == s@.len(),
            opens@ == seq!['(', '[', '{', '<'],
            closes@ == seq![')', ']', '}', '>'],
            matches@ == seq![('(', ')'), ('[', ']'), ('{', '}'), ('<', '>')],
            scoring@ == seq![(')', 3u64), (']', 57u64), ('}', 1197u64), ('>', 25137u64)],
            forall|k: int| 0 <= k < stack@.len() ==> is_opener(#[trigger] stack@[k]),
            score_from(s@, i as int, stack@) == score_from(s@, 0, seq![]),
        decreases n - i,
    {
        let c = s.get_char(i);
        if contains_char(&opens, c) {
            assert(is_opener(c)) by {
                let k = choose|k: int| 0 <= k < 4 && opens@[k] == c;
            }
            stack.push(c);
        } else if contains_char(&closes, c) {
            assert(is_closer(c)) by {
                let k = choose|k: int| 0 <= k < 4 && closes@[k] == c;
            }
            assert(!is_opener(c)) by {
                if is_opener(c) {
                    assert(opens@[0] == c || opens@[1] == c || opens@[2] == c || opens@[3] == c);
                }
            }
            let score = match lookup(scoring.as_slice(), c) {
                Ok(p) => p,
                Err(e) => return Err(e),
            };
            assert(score == error_points(c));
            match stack.pop() {
                Some(open) => {
                    let close = match lookup(matches.as_slice(), open) {
                        Ok(cl) => cl,
                        Err(e) => return Err(e),
                    };
                    assert(close == closer_of(open));
                    if close != c {
                        return Ok(Score::ErrorScore(score));
                    }
                },
                None => return Ok(Score::ErrorScore(score)),
            }
        } else {
            assert(!is_opener(c) && !is_closer(c)) by {
                if is_opener(c) {
                    assert(opens@[0] == c || opens@[1] == c || opens@[2] == c || opens@[3] == c);
                }
                if is_closer(c) {
                    assert(closes@[0] == c || closes@[1] == c || closes@[2] == c || closes@[3] == c);
                }
            }
            return Err("invalid character");
        }
        i = i + 1;
    }
    let complete = complete_table();
    let mut acc: u64 = 0;
    let mut j: usize = stack.len();
    while j > 0
        invariant
            j <= stack@.len(),
            complete@ == seq![('(', 1u64), ('[', 2u64), ('{', 3u64), ('<', 4u64)],
            forall|k: int| 0 <= k < stack@.len() ==> is_opener(#[trigger] stack@[k]),
            acc == completion_value(stack@.subrange(j as int, stack@.len() as int)),
            n == s@.len(),
            score_from(s@, n as int, stack@) == score_from(s@, 0, seq![]),
        decreases j,
    {
        let v = match lookup(complete.as_slice(), stack[j - 1]) {
            Ok(v) => v,
            Err(e) => return Err(e),
        };
        let ghost t = stack@.subrange(j - 1, stack@.len() as int);
        assert(t.drop_first() == stack@.subrange(j as int, stack@.len() as int));
        assert(v == completion_points(stack@[j - 1]));
        let next = match acc.checked_mul(5) {
            Some(m) => m.checked_add(v),
            None => None,
        };
        match next {
            Some(a) => acc = a,
            None => {
                proof {
                    assert(completion_value(t) == acc * 5 + v);
                    assert(completion_value(t) > u64::MAX);
                    lemma_completion_grows(stack@, j - 1);
                }
                return Err("completion score out of range");
            },
        }
        j = j - 1;
    }
    assert(stack@.subrange(0, stack@.len() as int) == stack@);
    Ok(Score::CompleteScore(acc))
}

/// The middle completion score: the one at half the count in ascending order
/// (the upper middle where the count is even); `None` where there is none.
pub fn middle_score(scores: &Vec<u64>) -> (r: Option<u64>)
    ensures
        r == if scores@.len() == 0 {
            None
        } else {
            Some(ascending(scores@)[(scores@.len() / 2) as int])
        },
{
    let s = sort_ascending(scores);
    if s.len() == 0 {
        return None;
    }
    Some(s[s.len() / 2])
}

} // verus!
