use vstd::prelude::*;
use std::collections::VecDeque;
use crate::grid::{spec_coord, Coord, decimal_upto};
use crate::text::{parse_unsigned, text_is};

verus! {

/// A fold of the transparent paper along a vertical (`x`) or horizontal (`y`)
/// line.
#[derive(Debug, Clone, Copy, PartialEq, Eq, Structural)]
pub enum FoldLine {
    FoldX(usize),
    FoldY(usize),
}

/// The fold that `s` writes, such as `fold along y=7`: the text after the last
/// `=` is the line, and the text must begin `fold along x` or `fold along y`.
pub open spec fn spec_fold(s: Seq<char>) -> Option<FoldLine> {
    if exists|k: int| 0 <= k < s.len() && s[k] == '=' {
        let k = choose|k: int| 0 <= k < s.len() && s[k] == '=' && forall|j: int| k < j < s.len() ==> s[j] != '=';
        match decimal_upto(s.subrange(k + 1, s.len() as int), usize::MAX as nat) {
            Some(v) => if s.len() >= 12 && s.subrange(0, 12) == "fold along x"@ {
                Some(FoldLine::FoldX(v as usize))
            } else if s.len() >= 12 && s.subrange(0, 12) == "fold along y"@ {
                Some(FoldLine::FoldY(v as usize))
            } else {
                None
            },
            None => None,
        }
    } else {
        None
    }
}

impl FoldLine {
    /// Reads a fold line such as `fold along x=5`.
    pub fn from_str(s: &str) -> (r: Result<FoldLine, &'static str>)
        ensures
            match r {
                Ok(f) => spec_fold(s@) == Some(f),
                Err(_) => spec_fold(s@).is_none(),
            },
    {
        let n = s.unicode_len();
        let mut k: usize = n;
        while k > 0
            invariant
                k <= n,
                n == s@.len(),
                forall|j: int| k <= j < n ==> s@[j] != '=',
            ensures
                k <= n,
                forall|j: int| k <= j < n ==> s@[j] != '=',
                k > 0 ==> s@[k - 1] == '=',
            decreases k,
        {
            if s.get_char(k - 1) == '=' {
                break;
            }
            k = k - 1;
        }
        if k == 0 {
            assert(!exists|j: int| 0 <= j < s@.len() && s@[j] == '=');
            return Err("no coordinate");
        }
        let eq = k - 1;
        proof {
            assert(s@[eq as int] == '=');
            let c = choose|c: int| 0 <= c < s@.len() && s@[c] == '=' && forall|j: int| c < j < s@.len() ==> s@[j] != '=';
            if c < eq {
                assert(s@[eq as int] != '=');
            }
            if c > eq {
                assert(s@[c] != '=');
            }
        }
        let v = match parse_unsigned(s, eq + 1, n, usize::MAX as u64) {
            Some(v) => v as usize,
            None => {
                return Err("bad coordinate");
            },
        };
        if n >= 12 && text_is(s, 0, 12, "fold along x") {
            Ok(FoldLine::FoldX(v))
        } else if n >= 12 && text_is(s, 0, 12, "fold along y") {
            proof {
                reveal_strlit("fold along x");
                reveal_strlit("fold along y");
                assert("fold along x"@[11] != "fold along y"@[11]);
            }
            Ok(FoldLine::FoldY(v))
        } else {
            Err("bad direction")
        }
    }
}

/// Whether folding along `f` keeps `c` on the paper: a dot past the line
/// lands as far before it, which must not be before the edge.
pub open spec fn fold_fits(f: FoldLine, c: Coord) -> bool {
    match f {
        FoldLine::FoldX(l) => c.x <= l || (2 * l <= usize::MAX && c.x <= 2 * l),
        FoldLine::FoldY(l) => c.y <= l || (2 * l <= usize::MAX && c.y <= 2 * l),
    }
}

/// Where `c` lands when the paper is folded along `f`.
pub open spec fn reflect(f: FoldLine, c: Coord) -> Coord {
    match f {
        FoldLine::FoldX(l) => if c.x <= l {
            c
        } else {
            Coord { x: (2 * l - c.x) as usize, y: c.y }
        },
        FoldLine::FoldY(l) => if c.y <= l {
            c
        } else {
            Coord { x: c.x, y: (2 * l - c.y) as usize }
        },
    }
}

/// Where `c` lands after the folds `fs`, in order.
pub open spec fn apply_folds(c: Coord, fs: Seq<FoldLine>) -> Coord
    decreases fs.len(),
{
    if fs.len() == 0 {
        c
    } else {
        reflect(fs.last(), apply_folds(c, fs.drop_last()))
    }
}

/// The transparent paper: the dots on it, and the folds still to make.
#[derive(Debug)]
pub struct Origami {
    grid: Vec<Coord>,
    folds: VecDeque<FoldLine>,
}

impl Origami {
    /// The dots, each once.
    pub closed spec fn dots(&self) -> Seq<Coord> {
        self.grid@
    }

    /// The folds still to make, in order.
    pub closed spec fn pending(&self) -> Seq<FoldLine> {
        self.folds@
    }

    pub open spec fn wf(&self) -> bool {
        self.dots().no_duplicates()
    }

    /// The next fold, if any, keeps every dot on the paper.
    pub open spec fn next_fold_fits(&self) -> bool {
        self.pending().len() > 0 ==> forall|i: int|
            0 <= i < self.dots().len() ==> fold_fits(self.pending()[0], #[trigger] self.dots()[i])
    }

    /// Whether the next fold keeps every dot on the paper.
    pub fn next_fits(&self) -> (r: bool)
        ensures
            r == self.next_fold_fits(),
    {
        if self.folds.len() == 0 {
            return true;
        }
        let f = self.folds[0];
        let mut i: usize = 0;
        while i < self.grid.len()
            invariant
                i <= self.grid@.len(),
                self.folds@.len() > 0,
                f == self.folds@[0],
                forall|j: int| 0 <= j < i ==> fold_fits(f, #[trigger] self.grid@[j]),
            decreases self.grid@.len() - i,
        {
            let c = self.grid[i];
            proof {
                match f {
                    FoldLine::FoldX(l) => assert((l <= usize::MAX / 2) == (2 * l <= usize::MAX)),
                    FoldLine::FoldY(l) => assert((l <= usize::MAX / 2) == (2 * l <= usize::MAX)),
                }
            }
            let ok = match f {
                FoldLine::FoldX(l) => c.x <= l || (l <= usize::MAX / 2 && c.x <= 2 * l),
                FoldLine::FoldY(l) => c.y <= l || (l <= usize::MAX / 2 && c.y <= 2 * l),
            };
            assert(ok == fold_fits(f, c));
            if !ok {
                assert(self.dots()[i as int] == c);
                assert(self.pending()[0] == f);
                return false;
            }
            i = i + 1;
        }
        true
    }

    /// Makes the next fold: every dot moves to where the fold puts it, and dots
    /// that land together become one. Returns how many dots are left, or
    /// `None` where no fold is left.
    pub fn fold_one(&mut self) -> (r: Option<usize>)
        requires
            old(self).wf(),
            old(self).next_fold_fits(),
        ensures
            final(self).wf(),
            old(self).pending().len() == 0 ==> r.is_none() && final(self).dots() == old(self).dots()
                && final(self).pending() == old(self).pending(),
            old(self).pending().len() > 0 ==> {
                &&& final(self).pending() == old(self).pending().drop_first()
                &&& forall|c: Coord|
                    #[trigger] final(self).dots().contains(c) <==> exists|i: int|
                        0 <= i < old(self).dots().len() && reflect(old(self).pending()[0], old(self).dots()[i]) == c
                &&& r == Some(final(self).dots().len() as usize)
            },
    {
        let f = match self.folds.pop_front() {
            Some(f) => f,
            None => {
                return None;
            },
        };
        let mut out: Vec<Coord> = Vec::new();
        let mut i: usize = 0;
        while i < self.grid.len()
            invariant
                i <= self.grid@.len(),
                self.grid@ == old(self).dots(),
                f == old(self).pending()[0],
                old(self).pending().len() > 0,
                forall|j: int| 0 <= j < self.grid@.len() ==> fold_fits(f, #[trigger] self.grid@[j]),
                out@.no_duplicates(),
                forall|c: Coord| #[trigger] out@.contains(c) <==> exists|j: int| 0 <= j < i && reflect(f, self.grid@[j]) == c,
            decreases self.grid@.len() - i,
        {
            let c = self.grid[i];
            assert(fold_fits(f, self.grid@[i as int]));
            let m = match f {
                FoldLine::FoldX(l) => if c.x <= l {
                    c
                } else {
                    Coord { x: 2 * l - c.x, y: c.y }
                },
                FoldLine::FoldY(l) => if c.y <= l {
                    c
                } else {
                    Coord { x: c.x, y: 2 * l - c.y }
                },
            };
            assert(m == reflect(f, c));
            let mut seen = false;
            let mut j: usize = 0;
            while j < out.len()
                invariant
                    j <= out@.len(),
                    seen == exists|k: int| 0 <= k < j && out@[k] == m,
                decreases out@.len() - j,
            {
                if out[j] == m {
                    seen = true;
                }
                j = j + 1;
            }
            let ghost before = out@;
            if !seen {
                out.push(m);
                assert forall|a: int, b: int| 0 <= a < b < out@.len() implies out@[a] != out@[b] by {
                    if b == out@.len() - 1 {
                        assert(out@[a] == before[a]);
                    } else {
                        assert(before[a] != before[b]);
                    }
                }
            }
            assert forall|d: Coord| #[trigger] out@.contains(d) <==> exists|j: int| 0 <= j < i + 1 && reflect(f, self.grid@[j]) == d by {
                if out@.contains(d) {
                    if before.contains(d) {
                        let j = choose|j: int| 0 <= j < i && reflect(f, self.grid@[j]) == d;
                        assert(0 <= j < i + 1);
                    } else {
                        assert(d == m);
                        assert(reflect(f, self.grid@[i as int]) == d);
                    }
                }
                if exists|j: int| 0 <= j < i + 1 && reflect(f, self.grid@[j]) == d {
                    let j = choose|j: int| 0 <= j < i + 1 && reflect(f, self.grid@[j]) == d;
                    if j < i {
                        assert(before.contains(d));
                        let k = choose|k: int| 0 <= k < before.len() && before[k] == d;
                        assert(out@[k] == d);
                    } else {
                        if seen {
                            let k = choose|k: int| 0 <= k < before.len() && before[k] == m;
                            assert(out@[k] == d);
                        } else {
                            assert(out@[out@.len() - 1] == d);
                        }
                    }
                }
            }
            i = i + 1;
        }
        self.grid = out;
        Some(self.grid.len())
    }

    /// Makes the folds in turn while each keeps every dot on the paper; stops
    /// at the first that would not. The dots are then where the folds made
    /// put the first dots, each once.
    pub fn fold(&mut self)
        requires
            old(self).wf(),
        ensures
            final(self).wf(),
            final(self).pending().len() == 0 || !final(self).next_fold_fits(),
            final(self).pending().len() <= old(self).pending().len(),
            final(self).pending() == old(self).pending().subrange(
                old(self).pending().len() - final(self).pending().len(),
                old(self).pending().len() as int,
            ),
            forall|c: Coord|
                #[trigger] final(self).dots().contains(c) <==> exists|i: int|
                    0 <= i < old(self).dots().len() && apply_folds(
                        old(self).dots()[i],
                        old(self).pending().subrange(0, old(self).pending().len() - final(self).pending().len()),
                    ) == c,
    {
        let ghost d0 = self.dots();
        let ghost p0 = self.pending();
        proof {
            assert forall|c: Coord| #[trigger] self.dots().contains(c) <==> exists|i: int|
                0 <= i < d0.len() && apply_folds(d0[i], p0.subrange(0, 0)) == c by {
                if self.dots().contains(c) {
                    let i = choose|i: int| 0 <= i < d0.len() && d0[i] == c;
                    assert(apply_folds(d0[i], p0.subrange(0, 0)) == c);
                }
            }
        }
        while self.folds.len() > 0 && self.next_fits()
            invariant
                self.wf(),
                d0 == old(self).dots(),
                p0 == old(self).pending(),
                self.pending().len() <= p0.len(),
                self.pending() == p0.subrange(p0.len() - self.pending().len(), p0.len() as int),
                forall|c: Coord|
                    #[trigger] self.dots().contains(c) <==> exists|i: int|
                        0 <= i < d0.len() && apply_folds(d0[i], p0.subrange(0, p0.len() - self.pending().len())) == c,
            decreases self.pending().len(),
        {
            let ghost cur = self.dots();
            let ghost done = p0.subrange(0, p0.len() - self.pending().len());
            let ghost f = self.pending()[0];
            assert(f == p0[p0.len() - self.pending().len()]);
            self.fold_one();
            let ghost done2 = p0.subrange(0, p0.len() - self.pending().len());
            assert(done2.drop_last() == done);
            assert(done2.last() == f);
            assert(self.pending() =~= p0.subrange(p0.len() - self.pending().len(), p0.len() as int));
            assert forall|c: Coord| #[trigger] self.dots().contains(c) <==> exists|i: int|
                0 <= i < d0.len() && apply_folds(d0[i], done2) == c by {
                if self.dots().contains(c) {
                    let j = choose|j: int| 0 <= j < cur.len() && reflect(f, cur[j]) == c;
                    assert(cur.contains(cur[j]));
                    let i = choose|i: int| 0 <= i < d0.len() && apply_folds(d0[i], done) == cur[j];
                    assert(apply_folds(d0[i], done2) == c);
                }
                if exists|i: int| 0 <= i < d0.len() && apply_folds(d0[i], done2) == c {
                    let i = choose|i: int| 0 <= i < d0.len() && apply_folds(d0[i], done2) == c;
                    let m = apply_folds(d0[i], done);
                    assert(cur.contains(m));
                    let j = choose|j: int| 0 <= j < cur.len() && cur[j] == m;
                    assert(reflect(f, cur[j]) == c);
                }
            }
        }
    }
}

/// The index of the first empty line from `i` on, or the number of lines
/// where none is.
pub open spec fn blank_from(ls: Seq<Seq<char>>, i: int) -> int
    decreases ls.len() - i,
{
    if i >= ls.len() || i < 0 {
        ls.len() as int
    } else if ls[i].len() == 0 {
        i
    } else {
        blank_from(ls, i + 1)
    }
}

/// The index of the first empty line, or the number of lines where none is.
pub open spec fn first_blank(ls: Seq<Seq<char>>) -> int {
    blank_from(ls, 0)
}

/// Every line before the first empty one is a coordinate, and every line after
/// it is a fold.
pub open spec fn origami_ok(ls: Seq<Seq<char>>) -> bool {
    &&& forall|i: int| 0 <= i < first_blank(ls) ==> #[trigger] spec_coord(ls[i]).is_some()
    &&& forall|i: int| first_blank(ls) < i < ls.len() ==> #[trigger] spec_fold(ls[i]).is_some()
}

impl Origami {
    /// Reads the dots, one `x,y` per line up to the first empty line, then the
    /// folds, one per line after it. A dot given twice is one dot.
    pub fn parse_origami(lines: &Vec<String>) -> (r: Result<Origami, &'static str>)
        ensures
            match r {
                Ok(o) => {
                    let ls = lines@.map_values(|l: String| l@);
                    let k = first_blank(ls);
                    &&& origami_ok(ls)
                    &&& o.wf()
                    &&& forall|c: Coord|
                        #[trigger] o.dots().contains(c) <==> exists|i: int| 0 <= i < k && spec_coord(ls[i]) == Some(c)
                    &&& o.pending().len() == if k < ls.len() {
                        ls.len() - k - 1
                    } else {
                        0
                    }
                    &&& forall|j: int|
                        0 <= j < o.pending().len() ==> Some(#[trigger] o.pending()[j]) == spec_fold(ls[k + 1 + j])
                },
                Err(_) => !origami_ok(lines@.map_values(|l: String| l@)),
            },
    {
        let ghost ls = lines@.map_values(|l: String| l@);
        let mut grid: Vec<Coord> = Vec::new();
        let mut y: usize = 0;
        while y < lines.len() && lines[y].as_str().unicode_len() != 0
            invariant
                y <= lines@.len(),
                ls == lines@.map_values(|l: String| l@),
                ls.len() == lines@.len(),
                forall|i: int| 0 <= i < y ==> ls[i].len() != 0,
                forall|i: int| 0 <= i < y ==> #[trigger] spec_coord(ls[i]).is_some(),
                grid@.no_duplicates(),
                forall|c: Coord| #[trigger] grid@.contains(c) <==> exists|i: int| 0 <= i < y && spec_coord(ls[i]) == Some(c),
            decreases lines@.len() - y,
        {
            assert(ls[y as int] == lines@[y as int]@);
            let c = match Coord::from_str(lines[y].as_str()) {
                Ok(c) => c,
                Err(_) => {
                    proof {
                        lemma_blank_after(ls, y as int);
                    }
                    return Err("bad dot");
                },
            };
            let ghost before = grid@;
            insert_unique(&mut grid, c);
            assert forall|d: Coord| #[trigger] grid@.contains(d) <==> exists|i: int| 0 <= i < y + 1 && spec_coord(ls[i]) == Some(d) by {
                if grid@.contains(d) && !before.contains(d) {
                    assert(d == c);
                    assert(spec_coord(ls[y as int]) == Some(d));
                }
            }
            y = y + 1;
        }
        let ghost k = y as int;
        proof {
            if k < ls.len() {
                assert(lines@[k]@.len() == 0);
                assert(ls[k].len() == 0);
            }
            lemma_first_blank(ls, k);
        }
        let mut folds: VecDeque<FoldLine> = VecDeque::new();
        if y < lines.len() {
            y = y + 1;
        }
        let start = y;
        while y < lines.len()
            invariant
                k < ls.len() ==> start == k + 1,
                k >= ls.len() ==> start == k,
                start <= y <= lines@.len(),
                k == first_blank(ls),
                ls == lines@.map_values(|l: String| l@),
                ls.len() == lines@.len(),
                folds@.len() == y - start,
                forall|j: int| 0 <= j < folds@.len() ==> Some(#[trigger] folds@[j]) == spec_fold(ls[start + j]),
            decreases lines@.len() - y,
        {
            assert(ls[y as int] == lines@[y as int]@);
            match FoldLine::from_str(lines[y].as_str()) {
                Ok(f) => folds.push_back(f),
                Err(_) => {
                    assert(first_blank(ls) < y);
                    assert(spec_fold(ls[y as int]).is_none());
                    return Err("bad fold");
                },
            }
            y = y + 1;
        }
        let o = Origami { grid, folds };
        proof {
            assert forall|j: int| 0 <= j < o.pending().len() implies Some(#[trigger] o.pending()[j]) == spec_fold(ls[k + 1 + j]) by {
                assert(Some(folds@[j]) == spec_fold(ls[start + j]));
            }
            assert forall|i: int| first_blank(ls) < i < ls.len() implies #[trigger] spec_fold(ls[i]).is_some() by {
                assert(Some(folds@[i - start]) == spec_fold(ls[start + (i - start)]));
            }
        }
        Ok(o)
    }
}

/// Where the first `y + 1` lines are not empty, the first empty line comes
/// after `y`.
proof fn lemma_blank_after(ls: Seq<Seq<char>>, y: int)
    requires
        0 <= y < ls.len(),
        forall|i: int| 0 <= i <= y ==> ls[i].len() != 0,
    ensures
        y < first_blank(ls),
{
    lemma_blank_from_after(ls, 0, y);
}

proof fn lemma_blank_from_after(ls: Seq<Seq<char>>, i: int, y: int)
    requires
        0 <= i <= y < ls.len(),
        forall|j: int| 0 <= j <= y ==> ls[j].len() != 0,
    ensures
        y < blank_from(ls, i),
    decreases ls.len() - i,
{
    if i < y {
        lemma_blank_from_after(ls, i + 1, y);
    } else {
        lemma_blank_from_ge(ls, i + 1);
    }
}

proof fn lemma_blank_from_ge(ls: Seq<Seq<char>>, i: int)
    requires
        0 <= i,
    ensures
        blank_from(ls, i) >= i || blank_from(ls, i) == ls.len(),
    decreases ls.len() - i,
{
    if i < ls.len() && ls[i].len() != 0 {
        lemma_blank_from_ge(ls, i + 1);
    }
}

/// The first empty line is at `k` where the lines before it are not empty and
/// line `k` is empty or there is none.
proof fn lemma_first_blank(ls: Seq<Seq<char>>, k: int)
    requires
        0 <= k <= ls.len(),
        forall|i: int| 0 <= i < k ==> ls[i].len() != 0,
        k < ls.len() ==> ls[k].len() == 0,
    ensures
        first_blank(ls) == k,
{
    lemma_blank_from_is(ls, 0, k);
}

proof fn lemma_blank_from_is(ls: Seq<Seq<char>>, i: int, k: int)
    requires
        0 <= i <= k <= ls.len(),
        forall|j: int| 0 <= j < k ==> ls[j].len() != 0,
        k < ls.len() ==> ls[k].len() == 0,
    ensures
        blank_from(ls, i) == k,
    decreases k - i,
{
    if i < k {
        lemma_blank_from_is(ls, i + 1, k);
    }
}

/// Adds `c` to `v` unless it is there already.
fn insert_unique(v: &mut Vec<Coord>, c: Coord)
    requires
        old(v)@.no_duplicates(),
    ensures
        final(v)@.no_duplicates(),
        forall|d: Coord| #[trigger] final(v)@.contains(d) <==> old(v)@.contains(d) || d == c,
{
    let mut j: usize = 0;
    while j < v.len()
        invariant
            j <= v@.len(),
            *v == *old(v),
            old(v)@.no_duplicates(),
            forall|k: int| 0 <= k < j ==> v@[k] != c,
        decreases v@.len() - j,
    {
        if v[j] == c {
            return;
        }
        j = j + 1;
    }
    v.push(c);
    assert forall|a: int, b: int| 0 <= a < b < v@.len() implies v@[a] != v@[b] by {
        if b == v@.len() - 1 {
            assert(v@[a] == old(v)@[a]);
        } else {
            assert(old(v)@[a] != old(v)@[b]);
        }
    }
    assert forall|d: Coord| #[trigger] v@.contains(d) <==> old(v)@.contains(d) || d == c by {
        if v@.contains(d) && d != c {
            let k = choose|k: int| 0 <= k < v@.len() && v@[k] == d;
            assert(old(v)@[k] == d);
        }
        if old(v)@.contains(d) {
            let k = choose|k: int| 0 <= k < old(v)@.len() && old(v)@[k] == d;
            assert(v@[k] == d);
        }
        if d == c {
            assert(v@[v@.len() - 1] == c);
        }
    }
}

/// `w` and `h` are one past the largest column and row holding a dot (zero
/// where there is none).
pub open spec fn extent(dots: Seq<Coord>, w: int, h: int) -> bool {
    &&& forall|i: int| 0 <= i < dots.len() ==> (#[trigger] dots[i]).x < w && dots[i].y < h
    &&& (dots.len() == 0 ==> w == 0 && h == 0)
    &&& (dots.len() > 0 ==> (exists|i: int| 0 <= i < dots.len() && (#[trigger] dots[i]).x + 1 == w) && (exists|i: int|
        0 <= i < dots.len() && (#[trigger] dots[i]).y + 1 == h))
}

impl Origami {
    /// The dots, each once.
    pub fn dot_list(&self) -> (r: Vec<Coord>)
        ensures
            r@ == self.dots(),
    {
        self.grid.clone()
    }

    /// The paper as rows of cells, `true` where a dot is, up to the last row
    /// and column that hold one.
    pub fn render(&self) -> (r: Vec<Vec<bool>>)
        requires
            forall|i: int| 0 <= i < self.dots().len() ==> (#[trigger] self.dots()[i]).x < usize::MAX && self.dots()[i].y
                < usize::MAX,
        ensures
            exists|w: int| {
                &&& extent(self.dots(), w, r@.len() as int)
                &&& forall|y: int| 0 <= y < r@.len() ==> (#[trigger] r@[y])@.len() == w
                &&& forall|y: int, x: int|
                    0 <= y < r@.len() && 0 <= x < w ==> r@[y]@[x] == self.dots().contains(
                        Coord { x: x as usize, y: y as usize },
                    )
            },
    {
        let mut w: usize = 0;
        let mut h: usize = 0;
        let mut i: usize = 0;
        while i < self.grid.len()
            invariant
                i <= self.grid@.len(),
                forall|k: int| 0 <= k < self.dots().len() ==> (#[trigger] self.dots()[k]).x < usize::MAX && self.dots()[k].y < usize::MAX,
                extent(self.grid@.subrange(0, i as int), w as int, h as int),
            decreases self.grid@.len() - i,
        {
            let c = self.grid[i];
            assert(self.dots()[i as int] == c);
            let ghost pre = self.grid@.subrange(0, i as int);
            let ghost cur = self.grid@.subrange(0, i + 1);
            if c.x + 1 > w {
                w = c.x + 1;
            }
            if c.y + 1 > h {
                h = c.y + 1;
            }
            assert(extent(cur, w as int, h as int)) by {
                assert(cur[i as int] == c);
                assert forall|k: int| 0 <= k < cur.len() implies (#[trigger] cur[k]).x < w && cur[k].y < h by {
                    if k < i {
                        assert(cur[k] == pre[k]);
                    }
                }
                if w == c.x + 1 {
                    assert(cur[i as int].x + 1 == w);
                } else {
                    let k = choose|k: int| 0 <= k < pre.len() && (#[trigger] pre[k]).x + 1 == w;
                    assert(cur[k] == pre[k]);
                }
                if h == c.y + 1 {
                    assert(cur[i as int].y + 1 == h);
                } else {
                    let k = choose|k: int| 0 <= k < pre.len() && (#[trigger] pre[k]).y + 1 == h;
                    assert(cur[k] == pre[k]);
                }
            }
            i = i + 1;
        }
        assert(self.grid@.subrange(0, i as int) == self.grid@);
        let mut rows: Vec<Vec<bool>> = Vec::new();
        let mut y: usize = 0;
        while y < h
            invariant
                y <= h,
                rows@.len() == y,
                forall|r: int| 0 <= r < y ==> (#[trigger] rows@[r])@.len() == w,
                forall|r: int, x: int|
                    0 <= r < y && 0 <= x < w ==> rows@[r]@[x] == self.grid@.contains(Coord { x: x as usize, y: r as usize }),
            decreases h - y,
        {
            let mut row: Vec<bool> = Vec::new();
            let mut x: usize = 0;
            while x < w
                invariant
                    x <= w,
                    y < h,
                    row@.len() == x,
                    forall|k: int| 0 <= k < x ==> row@[k] == self.grid@.contains(Coord { x: k as usize, y: y }),
                decreases w - x,
            {
                let target = Coord { x, y };
                let mut found = false;
                let mut k: usize = 0;
                while k < self.grid.len()
                    invariant
                        k <= self.grid@.len(),
                        found == exists|j: int| 0 <= j < k && self.grid@[j] == target,
                    decreases self.grid@.len() - k,
                {
                    if self.grid[k] == target {
                        found = true;
                    }
                    k = k + 1;
                }
                row.push(found);
                x = x + 1;
            }
            rows.push(row);
            y = y + 1;
        }
        assert(extent(self.dots(), w as int, rows@.len() as int));
        rows
    }
}

} // verus!
