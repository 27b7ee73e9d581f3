use vstd::prelude::*;
use crate::text::{parse_i32, spec_i32, split_words, word_ranges, words};

verus! {

/// A bingo board of five rows of five numbers, with the numbers marked so far.
#[derive(Debug)]
pub struct Board {
    grid: Vec<i32>,
    marked: Vec<bool>,
    scored: bool,
}

/// The numbers written on `lines`, in order, where every word is one.
pub open spec fn board_numbers(lines: Seq<Seq<char>>) -> Option<Seq<i32>>
    decreases lines.len(),
{
    if lines.len() == 0 {
        Some(seq![])
    } else {
        match board_numbers(lines.drop_last()) {
            Some(prev) => match line_numbers(lines.last()) {
                Some(more) => Some(prev + more),
                None => None,
            },
            None => None,
        }
    }
}

/// The numbers written on one line, where every word is one.
pub open spec fn line_numbers(line: Seq<char>) -> Option<Seq<i32>> {
    if forall|k: int| 0 <= k < words(line).len() ==> (#[trigger] spec_i32(words(line)[k])).is_some() {
        Some(words(line).map_values(|w: Seq<char>| spec_i32(w).unwrap()))
    } else {
        None
    }
}

/// Cell `i` exists and is marked.
pub open spec fn marked_at(m: Seq<bool>, i: int) -> bool {
    0 <= i < m.len() && m[i]
}

/// Row `r` is marked throughout.
pub open spec fn row_done(m: Seq<bool>, r: int) -> bool {
    forall|k: int| 0 <= k < 5 ==> #[trigger] marked_at(m, 5 * r + k)
}

/// Column `c` is marked throughout.
pub open spec fn col_done(m: Seq<bool>, c: int) -> bool {
    forall|r: int| 0 <= r < 5 ==> #[trigger] marked_at(m, 5 * r + c)
}

pub open spec fn has_bingo(m: Seq<bool>) -> bool {
    (exists|r: int| 0 <= r < 5 && #[trigger] row_done(m, r)) || (exists|c: int| 0 <= c < 5 && #[trigger] col_done(m, c))
}

/// The sum of the numbers not marked.
pub open spec fn unmarked_sum(g: Seq<i32>, m: Seq<bool>) -> int
    decreases g.len(),
{
    if g.len() == 0 {
        0
    } else {
        unmarked_sum(g.drop_last(), m) + if g.len() - 1 < m.len() && m[g.len() - 1] {
            0
        } else {
            g.last() as int
        }
    }
}

/// The first position of `n` on the board, if it is there.
pub open spec fn first_pos(g: Seq<i32>, n: i32) -> Option<int> {
    if exists|p: int| 0 <= p < g.len() && g[p] == n {
        Some(choose|p: int| 0 <= p < g.len() && g[p] == n && forall|q: int| 0 <= q < p ==> g[q] != n)
    } else {
        None
    }
}

impl Board {
    pub closed spec fn numbers(&self) -> Seq<i32> {
        self.grid@
    }

    pub closed spec fn marks(&self) -> Seq<bool> {
        self.marked@
    }

    pub closed spec fn spec_scored(&self) -> bool {
        self.scored
    }

    /// At most five rows of five, one mark for each number.
    pub closed spec fn wf(&self) -> bool {
        &&& self.grid@.len() <= 25
        &&& self.marked@.len() == self.grid@.len()
    }

    /// Reads a board from its lines: `Some` exactly when every word is an `i32`
    /// and there are at most twenty-five of them (a board has five rows of five,
    /// and a number beyond the twenty-fifth would have no row to mark). Nothing
    /// is marked yet.
    pub fn parse_board(lines: &Vec<String>) -> (r: Option<Board>)
        ensures
            match r {
                Some(b) => {
                    &&& b.wf()
                    &&& b.numbers().len() <= 25
                    &&& board_numbers(lines@.map_values(|l: String| l@)) == Some(b.numbers())
                    &&& b.marks() == Seq::new(b.numbers().len(), |i: int| false)
                    &&& !b.spec_scored()
                },
                None => match board_numbers(lines@.map_values(|l: String| l@)) {
                    Some(ns) => ns.len() > 25,
                    None => true,
                },
            },
    {
        let ghost ls = lines@.map_values(|l: String| l@);
        let mut grid: Vec<i32> = Vec::new();
        let mut y: usize = 0;
        while y < lines.len()
            invariant
                y <= lines@.len(),
                ls == lines@.map_values(|l: String| l@),
                board_numbers(ls.subrange(0, y as int)) == Some(grid@),
            decreases lines@.len() - y,
        {
            let line = lines[y].as_str();
            assert(ls.subrange(0, y + 1).drop_last() == ls.subrange(0, y as int));
            assert(ls.subrange(0, y + 1).last() == line@);
            let ranges = split_words(line);
            let ghost before = grid@;
            let mut k: usize = 0;
            while k < ranges.len()
                invariant
                    k <= ranges@.len(),
                    y < lines@.len(),
                    ls == lines@.map_values(|l: String| l@),
                    line@ == lines@[y as int]@,
                    board_numbers(ls.subrange(0, y as int)) == Some(before),
                    ranges@.len() == word_ranges(line@, 0, -1).len(),
                    forall|j: int|
                        0 <= j < ranges@.len() ==> {
                            &&& (#[trigger] ranges@[j]).0 as int == word_ranges(line@, 0, -1)[j].0
                            &&& ranges@[j].1 as int == word_ranges(line@, 0, -1)[j].1
                            &&& ranges@[j].0 <= ranges@[j].1 <= line@.len()
                        },
                    grid@.len() == before.len() + k,
                    grid@.subrange(0, before.len() as int) == before,
                    forall|j: int| 0 <= j < k ==> Some(#[trigger] grid@[before.len() + j]) == spec_i32(words(line@)[j]),
                decreases ranges@.len() - k,
            {
                let (lo, hi) = ranges[k];
                assert(words(line@)[k as int] == line@.subrange(lo as int, hi as int));
                match parse_i32(line, lo, hi) {
                    Some(v) => grid.push(v),
                    None => {
                        assert(line_numbers(line@).is_none());
                        proof {
                            assert(ls.len() == lines@.len());
                            assert(ls[y as int] == line@);
                            lemma_numbers_none(ls, y as int + 1);
                        }
                        return None;
                    },
                }
                k = k + 1;
            }
            let ghost more = words(line@).map_values(|w: Seq<char>| spec_i32(w).unwrap());
            assert forall|j: int| 0 <= j < words(line@).len() implies (#[trigger] spec_i32(words(line@)[j])).is_some() by {
                assert(Some(grid@[before.len() + j]) == spec_i32(words(line@)[j]));
            }
            assert(grid@ =~= before + more) by {
                assert forall|j: int| 0 <= j < more.len() implies grid@[before.len() + j] == more[j] by {
                    assert(Some(grid@[before.len() + j]) == spec_i32(words(line@)[j]));
                }
            }
            y = y + 1;
        }
        assert(ls.subrange(0, y as int) == ls);
        if grid.len() > 25 {
            return None;
        }
        let mut marked: Vec<bool> = Vec::new();
        let mut i: usize = 0;
        while i < grid.len()
            invariant
                i <= grid@.len(),
                marked@ == Seq::new(i as nat, |j: int| false),
            decreases grid@.len() - i,
        {
            marked.push(false);
            i = i + 1;
        }
        Some(Board { grid, marked, scored: false })
    }

    /// Marks the first cell holding `n`, if any. Where a whole row or a whole
    /// column is then marked, the board has scored: the result is the sum of
    /// its unmarked numbers times `n`.
    pub fn mark(&mut self, n: i32) -> (r: Option<i128>)
        requires
            old(self).wf(),
        ensures
            final(self).wf(),
            final(self).numbers() == old(self).numbers(),
            final(self).marks() == match first_pos(old(self).numbers(), n) {
                Some(p) => old(self).marks().update(p, true),
                None => old(self).marks(),
            },
            final(self).spec_scored() == (old(self).spec_scored() || has_bingo(final(self).marks())),
            r == if has_bingo(final(self).marks()) {
                Some((unmarked_sum(final(self).numbers(), final(self).marks()) * n) as i128)
            } else {
                None::<i128>
            },
    {
        let mut p: usize = 0;
        while p < self.grid.len()
            invariant
                p <= self.grid@.len(),
                forall|q: int| 0 <= q < p ==> self.grid@[q] != n,
            ensures
                p <= self.grid@.len(),
                forall|q: int| 0 <= q < p ==> self.grid@[q] != n,
                p < self.grid@.len() ==> self.grid@[p as int] == n,
            decreases self.grid@.len() - p,
        {
            if self.grid[p] == n {
                break;
            }
            p = p + 1;
        }
        if p < self.grid.len() {
            proof {
                let g = old(self).numbers();
                assert(g[p as int] == n);
                let q = choose|q: int| 0 <= q < g.len() && g[q] == n && forall|j: int| 0 <= j < q ==> g[j] != n;
                if q < p {
                    assert(g[q] != n);
                } else if q > p {
                    assert(g[p as int] != n);
                }
            }
            assert(first_pos(old(self).numbers(), n) == Some(p as int));
            self.marked.set(p, true);
        } else {
            assert(first_pos(old(self).numbers(), n).is_none());
        }
        let bingo = self.bingo();
        if bingo {
            self.scored = true;
            let s = self.unmarked_total();
            proof {
                lemma_unmarked_bound(self.grid@, self.marked@);
                assert(-0x40_0000_0000_0000_0000 <= (s as int) * (n as int) <= 0x40_0000_0000_0000_0000) by (nonlinear_arith)
                    requires
                        -25 * 0x8000_0000 <= s <= 25 * 0x8000_0000,
                        -0x8000_0000 <= n <= 0x7fff_ffff,
                ;
            }
            Some(s as i128 * n as i128)
        } else {
            None
        }
    }

    /// Whether a whole row or a whole column is marked.
    fn bingo(&self) -> (r: bool)
        requires
            self.wf(),
        ensures
            r == has_bingo(self.marked@),
    {
        let len = self.marked.len();
        let mut r: usize = 0;
        while r < 5
            invariant
                r <= 5,
                len == self.marked@.len() <= 25,
                forall|q: int| 0 <= q < r ==> !#[trigger] row_done(self.marked@, q),
            decreases 5 - r,
        {
            let mut all = true;
            let mut k: usize = 0;
            while k < 5
                invariant
                    k <= 5,
                    r < 5,
                    len == self.marked@.len() <= 25,
                    all == forall|j: int| 0 <= j < k ==> #[trigger] marked_at(self.marked@, 5 * r + j),
                decreases 5 - k,
            {
                let cell = 5 * r + k < len && self.marked[5 * r + k];
                assert(cell == marked_at(self.marked@, 5 * r + k));
                assert((forall|j: int| 0 <= j < k + 1 ==> #[trigger] marked_at(self.marked@, 5 * r + j)) == (
                (forall|j: int| 0 <= j < k ==> #[trigger] marked_at(self.marked@, 5 * r + j)) && cell));
                all = all && cell;
                k = k + 1;
            }
            if all {
                assert(row_done(self.marked@, r as int));
                return true;
            }
            r = r + 1;
        }
        let mut c: usize = 0;
        while c < 5
            invariant
                c <= 5,
                len == self.marked@.len() <= 25,
                forall|q: int| 0 <= q < 5 ==> !#[trigger] row_done(self.marked@, q),
                forall|q: int| 0 <= q < c ==> !#[trigger] col_done(self.marked@, q),
            decreases 5 - c,
        {
            let mut all = true;
            let mut k: usize = 0;
            while k < 5
                invariant
                    k <= 5,
                    c < 5,
                    len == self.marked@.len() <= 25,
                    all == forall|j: int| 0 <= j < k ==> #[trigger] marked_at(self.marked@, 5 * j + c),
                decreases 5 - k,
            {
                let cell = 5 * k + c < len && self.marked[5 * k + c];
                assert(cell == marked_at(self.marked@, 5 * k + c));
                assert((forall|j: int| 0 <= j < k + 1 ==> #[trigger] marked_at(self.marked@, 5 * j + c)) == (
                (forall|j: int| 0 <= j < k ==> #[trigger] marked_at(self.marked@, 5 * j + c)) && cell));
                all = all && cell;
                k = k + 1;
            }
            if all {
                assert(col_done(self.marked@, c as int));
                return true;
            }
            c = c + 1;
        }
        false
    }

    /// The sum of the numbers not marked.
    fn unmarked_total(&self) -> (s: i64)
        requires
            self.wf(),
        ensures
            s == unmarked_sum(self.grid@, self.marked@),
    {
        let mut s: i64 = 0;
        let mut i: usize = 0;
        while i < self.grid.len()
            invariant
                i <= self.grid@.len() <= 25,
                self.marked@.len() == self.grid@.len(),
                s == unmarked_sum(self.grid@.subrange(0, i as int), self.marked@),
                -0x8000_0000 * i <= s <= 0x8000_0000 * i,
            decreases self.grid@.len() - i,
        {
            assert(self.grid@.subrange(0, i + 1).drop_last() == self.grid@.subrange(0, i as int));
            if !self.marked[i] {
                s = s + self.grid[i] as i64;
            }
            i = i + 1;
        }
        assert(self.grid@.subrange(0, i as int) == self.grid@);
        s
    }

    /// Whether the board has not scored yet.
    pub fn is_playing(&self) -> (r: bool)
        ensures
            r == !self.spec_scored(),
    {
        !self.scored
    }

    /// Clears every mark and the score, for a new game.
    pub fn reset(&mut self)
        requires
            old(self).wf(),
        ensures
            final(self).wf(),
            final(self).numbers() == old(self).numbers(),
            final(self).marks() == Seq::new(old(self).numbers().len(), |i: int| false),
            !final(self).spec_scored(),
    {
        self.scored = false;
        let mut i: usize = 0;
        while i < self.marked.len()
            invariant
                i <= self.marked@.len(),
                self.marked@.len() == old(self).marked@.len(),
                self.grid == old(self).grid,
                !self.scored,
                forall|j: int| 0 <= j < i ==> !#[trigger] self.marked@[j],
            decreases self.marked@.len() - i,
        {
            self.marked.set(i, false);
            i = i + 1;
        }
        assert(self.marked@ =~= Seq::new(old(self).numbers().len(), |i: int| false));
    }
}

proof fn lemma_unmarked_bound(g: Seq<i32>, m: Seq<bool>)
    ensures
        -0x8000_0000 * g.len() <= unmarked_sum(g, m) <= 0x8000_0000 * g.len(),
    decreases g.len(),
{
    if g.len() > 0 {
        lemma_unmarked_bound(g.drop_last(), m);
    }
}

/// A line of the board that holds a word that is no number leaves no numbers.
proof fn lemma_numbers_none(ls: Seq<Seq<char>>, y: int)
    requires
        0 < y <= ls.len(),
        line_numbers(ls[y - 1]).is_none(),
    ensures
        board_numbers(ls).is_none(),
    decreases ls.len() - y,
{
    if y < ls.len() {
        lemma_numbers_none(ls.drop_last(), y);
    } else {
        assert(ls.last() == ls[y - 1]);
    }
}

/// The marks of a board after `n` is drawn.
pub open spec fn marks_after(g: Seq<i32>, m: Seq<bool>, n: i32) -> Seq<bool> {
    match first_pos(g, n) {
        Some(p) => m.update(p, true),
        None => m,
    }
}

/// The score of the first board to win when `draws` are called from the
/// `i`-th on, each marked on every board in order from the `j`-th; the boards
/// hold the numbers `gs` and the marks `ms`.
pub open spec fn first_win(gs: Seq<Seq<i32>>, ms: Seq<Seq<bool>>, draws: Seq<i32>, i: int, j: int) -> Option<int>
    decreases draws.len() - i, gs.len() - j,
{
    if i < 0 || i >= draws.len() || j < 0 {
        None
    } else if j >= gs.len() {
        first_win(gs, ms, draws, i + 1, 0)
    } else {
        let m2 = marks_after(gs[j], ms[j], draws[i]);
        if has_bingo(m2) {
            Some(unmarked_sum(gs[j], m2) * draws[i])
        } else {
            first_win(gs, ms.update(j, m2), draws, i, j + 1)
        }
    }
}

/// The numbers on each board.
pub open spec fn numbers_of(bs: Seq<Board>) -> Seq<Seq<i32>> {
    bs.map_values(|b: Board| b.numbers())
}

/// The marks on each board.
pub open spec fn marks_of(bs: Seq<Board>) -> Seq<Seq<bool>> {
    bs.map_values(|b: Board| b.marks())
}

pub open spec fn all_wf(bs: Seq<Board>) -> bool {
    forall|k: int| 0 <= k < bs.len() ==> (#[trigger] bs[k]).wf()
}

/// Calls the numbers in turn, marking each on every board in order, and
/// returns the score of the first board to win, if any does.
pub fn first_winner(boards: &mut Vec<Board>, draws: &Vec<i32>) -> (r: Option<i128>)
    requires
        all_wf(old(boards)@),
    ensures
        all_wf(final(boards)@),
        r == match first_win(numbers_of(old(boards)@), marks_of(old(boards)@), draws@, 0, 0) {
            Some(v) => Some(v as i128),
            None => None::<i128>,
        },
{
    let ghost gs = numbers_of(boards@);
    let ghost goal = first_win(gs, marks_of(boards@), draws@, 0, 0);
    let mut i: usize = 0;
    while i < draws.len()
        invariant
            i <= draws@.len(),
            all_wf(boards@),
            numbers_of(boards@) == gs,
            gs.len() == boards@.len(),
            first_win(gs, marks_of(boards@), draws@, i as int, 0) == goal,
            goal == first_win(numbers_of(old(boards)@), marks_of(old(boards)@), draws@, 0, 0),
        decreases draws@.len() - i,
    {
        let n = draws[i];
        let mut j: usize = 0;
        while j < boards.len()
            invariant
                i < draws@.len(),
                n == draws@[i as int],
                j <= boards@.len(),
                all_wf(boards@),
                numbers_of(boards@) == gs,
                gs.len() == boards@.len(),
                first_win(gs, marks_of(boards@), draws@, i as int, j as int) == goal,
                goal == first_win(numbers_of(old(boards)@), marks_of(old(boards)@), draws@, 0, 0),
            decreases boards@.len() - j,
        {
            let ghost before = boards@;
            assert(before[j as int].wf());
            let res = boards[j].mark(n);
            proof {
                let b2 = boards@[j as int];
                assert(boards@ == before.update(j as int, b2));
                assert(b2.numbers() == gs[j as int]);
                assert(marks_of(before)[j as int] == before[j as int].marks());
                assert(b2.marks() == marks_after(gs[j as int], marks_of(before)[j as int], n));
                assert(numbers_of(boards@) =~= gs);
                assert(marks_of(boards@) =~= marks_of(before).update(j as int, b2.marks()));
                assert(all_wf(boards@)) by {
                    assert forall|k: int| 0 <= k < boards@.len() implies (#[trigger] boards@[k]).wf() by {
                        if k != j {
                            assert(boards@[k] == before[k]);
                        }
                    }
                }
            }
            if let Some(score) = res {
                return Some(score);
            }
            j = j + 1;
        }
        i = i + 1;
    }
    None
}

/// A board as its numbers and marks.
pub open spec fn pairs_of(bs: Seq<Board>) -> Seq<(Seq<i32>, Seq<bool>)> {
    bs.map_values(|b: Board| (b.numbers(), b.marks()))
}

/// The board `p` after `n` is drawn.
pub open spec fn stepped(p: (Seq<i32>, Seq<bool>), n: i32) -> (Seq<i32>, Seq<bool>) {
    (p.0, marks_after(p.0, p.1, n))
}

/// The latest score after `n` is drawn and marked on the boards `ps` in order:
/// that of the last board to win with it, else `best`.
pub open spec fn round_best(ps: Seq<(Seq<i32>, Seq<bool>)>, n: i32, best: Option<int>) -> Option<int>
    decreases ps.len(),
{
    if ps.len() == 0 {
        best
    } else {
        let q = stepped(ps.last(), n);
        if has_bingo(q.1) {
            Some(unmarked_sum(q.0, q.1) * n)
        } else {
            round_best(ps.drop_last(), n, best)
        }
    }
}

/// The boards `ps` that have not won once `n` is drawn, in order.
pub open spec fn survivors(ps: Seq<(Seq<i32>, Seq<bool>)>, n: i32) -> Seq<(Seq<i32>, Seq<bool>)>
    decreases ps.len(),
{
    if ps.len() == 0 {
        seq![]
    } else {
        let q = stepped(ps.last(), n);
        survivors(ps.drop_last(), n) + if has_bingo(q.1) {
            seq![]
        } else {
            seq![q]
        }
    }
}

/// The score of the last board to win when `draws` are called from the `i`-th
/// on, each board leaving the game once it has won.
pub open spec fn last_win(ps: Seq<(Seq<i32>, Seq<bool>)>, draws: Seq<i32>, i: int, best: Option<int>) -> Option<int>
    decreases draws.len() - i,
{
    if i < 0 || i >= draws.len() {
        best
    } else {
        last_win(survivors(ps, draws[i]), draws, i + 1, round_best(ps, draws[i], best))
    }
}

pub open spec fn all_playing(bs: Seq<Board>) -> bool {
    forall|k: int| 0 <= k < bs.len() ==> (#[trigger] bs[k]).wf() && !bs[k].spec_scored()
}

/// Calls the numbers in turn; each board that wins leaves the game at the end
/// of that call. Returns the score of the last board to win, if any did.
pub fn last_winner(boards: &mut Vec<Board>, draws: &Vec<i32>) -> (r: Option<i128>)
    requires
        all_playing(old(boards)@),
    ensures
        all_playing(final(boards)@),
        r == match last_win(pairs_of(old(boards)@), draws@, 0, None) {
            Some(v) => Some(v as i128),
            None => None::<i128>,
        },
{
    let ghost goal = last_win(pairs_of(boards@), draws@, 0, None);
    let mut best: Option<i128> = None;
    let ghost mut best_spec: Option<int> = None;
    let mut i: usize = 0;
    while i < draws.len()
        invariant
            i <= draws@.len(),
            all_playing(boards@),
            last_win(pairs_of(boards@), draws@, i as int, best_spec) == goal,
            goal == last_win(pairs_of(old(boards)@), draws@, 0, None),
            best == match best_spec {
                Some(v) => Some(v as i128),
                None => None::<i128>,
            },
        decreases draws@.len() - i,
    {
        let n = draws[i];
        let ghost ps0 = pairs_of(boards@);
        let ghost best0 = best_spec;
        let mut rest: Vec<Board> = Vec::new();
        let ghost mut k: int = 0;
        while boards.len() > 0
            invariant
                0 <= k <= ps0.len(),
                n == draws@[i as int],
                i < draws@.len(),
                all_playing(boards@),
                all_playing(rest@),
                pairs_of(boards@) == ps0.subrange(k, ps0.len() as int),
                pairs_of(rest@) == survivors(ps0.subrange(0, k), n),
                best_spec == round_best(ps0.subrange(0, k), n, best0),
                best == match best_spec {
                    Some(v) => Some(v as i128),
                    None => None::<i128>,
                },
            decreases boards@.len(),
        {
            let ghost before = boards@;
            let mut b = boards.remove(0);
            proof {
                assert(before[0] == b);
                assert(b.wf() && !b.spec_scored());
                assert(pairs_of(before).len() == before.len());
                assert(k < ps0.len());
                assert(pairs_of(before)[0] == (before[0].numbers(), before[0].marks()));
                assert(ps0[k] == (b.numbers(), b.marks())) by {
                    assert(pairs_of(before)[0] == ps0.subrange(k, ps0.len() as int)[0]);
                }
                assert(pairs_of(boards@) =~= ps0.subrange(k + 1, ps0.len() as int)) by {
                    assert forall|t: int| 0 <= t < boards@.len() implies pairs_of(boards@)[t] == ps0.subrange(k + 1, ps0.len() as int)[t] by {
                        assert(boards@[t] == before[t + 1]);
                        assert(pairs_of(before)[t + 1] == ps0.subrange(k, ps0.len() as int)[t + 1]);
                        assert(pairs_of(before)[t + 1] == (before[t + 1].numbers(), before[t + 1].marks()));
                        assert(pairs_of(boards@)[t] == (boards@[t].numbers(), boards@[t].marks()));
                    }
                }
                assert(all_playing(boards@)) by {
                    assert forall|t: int| 0 <= t < boards@.len() implies (#[trigger] boards@[t]).wf() && !boards@[t].spec_scored() by {
                        assert(boards@[t] == before[t + 1]);
                    }
                }
            }
            let ghost pre = ps0.subrange(0, k);
            let ghost cur = ps0.subrange(0, k + 1);
            assert(cur.drop_last() == pre);
            assert(cur.last() == ps0[k]);
            let res = b.mark(n);
            match res {
                Some(score) => {
                    best = Some(score);
                    proof {
                        best_spec = Some(unmarked_sum(b.numbers(), b.marks()) * n);
                        assert(pairs_of(rest@) =~= survivors(cur, n));
                    }
                },
                None => {
                    let ghost old_rest = rest@;
                    rest.push(b);
                    proof {
                        assert(pairs_of(rest@) =~= pairs_of(old_rest).push((b.numbers(), b.marks())));
                        assert(all_playing(rest@)) by {
                            assert forall|t: int| 0 <= t < rest@.len() implies (#[trigger] rest@[t]).wf() && !rest@[t].spec_scored() by {
                                if t < old_rest.len() {
                                    assert(rest@[t] == old_rest[t]);
                                }
                            }
                        }
                    }
                },
            }
            proof {
                k = k + 1;
            }
        }
        proof {
            assert(k == ps0.len()) by {
                assert(pairs_of(boards@).len() == 0);
            }
            assert(ps0.subrange(0, k) == ps0);
        }
        *boards = rest;
        i = i + 1;
    }
    best
}

} // verus!
