use vstd::prelude::*;
use crate::text::{parse_i32, spec_i32, split_at_sep, split_pieces, split_ranges};

verus! {

/// A point of the sea floor.
#[derive(Debug, Clone, Copy, PartialEq, Eq, Hash, Structural)]
pub struct Pos {
    pub x: i32,
    pub y: i32,
}

/// A line of hydrothermal vents from `start` to `end`.
#[derive(Debug, Clone, Copy, PartialEq, Eq, Structural)]
pub struct Line {
    pub start: Pos,
    pub end: Pos,
}

/// The point that `s` writes as `x,y`, two `i32`s.
pub open spec fn spec_pos(s: Seq<char>) -> Option<Pos> {
    let parts = split_pieces(s, seq![',']);
    if parts.len() == 2 {
        match (spec_i32(parts[0]), spec_i32(parts[1])) {
            (Some(x), Some(y)) => Some(Pos { x, y }),
            _ => None,
        }
    } else {
        None
    }
}

/// The line that `s` writes as `x1,y1 -> x2,y2`.
pub open spec fn spec_line(s: Seq<char>) -> Option<Line> {
    let parts = split_pieces(s, seq![' ', '-', '>', ' ']);
    if parts.len() == 2 {
        match (spec_pos(parts[0]), spec_pos(parts[1])) {
            (Some(a), Some(b)) => Some(Line { start: a, end: b }),
            _ => None,
        }
    } else {
        None
    }
}

/// `a / b` rounded toward zero, as integer division does, for a positive `b`.
pub open spec fn trunc_div(a: int, b: int) -> int {
    if a >= 0 {
        a / b
    } else {
        -((-a) / b)
    }
}

pub open spec fn sign(a: int) -> int {
    if a > 0 {
        1
    } else if a < 0 {
        -1
    } else {
        0
    }
}

pub open spec fn abs(a: int) -> int {
    if a < 0 {
        -a
    } else {
        a
    }
}

/// The step in `x`, the step in `y` and the number of points of the line: a
/// line that moves across steps one column at a time, and moves `dy / |dx|`
/// rows with each; an upright line steps one row at a time; a single point
/// marks nothing.
pub open spec fn line_steps(l: Line) -> (int, int, int) {
    let dx = l.end.x - l.start.x;
    let dy = l.end.y - l.start.y;
    if dx != 0 {
        (sign(dx), trunc_div(dy, abs(dx)), abs(dx) + 1)
    } else if dy != 0 {
        (0, sign(dy), abs(dy) + 1)
    } else {
        (0, 0, 0)
    }
}

/// The `i`-th point that the line marks.
pub open spec fn line_point(l: Line, i: int) -> (int, int) {
    let (sx, sy, n) = line_steps(l);
    (l.start.x + i * sx, l.start.y + i * sy)
}

/// How many times the line marks the point `p`.
pub open spec fn marks_on(l: Line, p: Pos) -> nat {
    if exists|i: int| 0 <= i < line_steps(l).2 && line_point(l, i) == (p.x as int, p.y as int) {
        1
    } else {
        0
    }
}

/// A count for each point marked so far.
#[derive(Debug)]
pub struct Vents {
    counts: Vec<(Pos, u64)>,
}

impl Pos {
    /// Reads a point written `x,y`.
    pub fn try_from(s: &str) -> (r: Result<Pos, &'static str>)
        ensures
            match r {
                Ok(p) => spec_pos(s@) == Some(p),
                Err(_) => spec_pos(s@).is_none(),
            },
    {
        proof {
            reveal_strlit(",");
            assert(","@ =~= seq![',']);
        }
        let parts = split_at_sep(s, ",");
        let ghost rr = split_ranges(s@, seq![','], 0, 0);
        if parts.len() != 2 {
            return Err("a point has two coordinates");
        }
        assert(split_pieces(s@, seq![','])[0] == s@.subrange(rr[0].0, rr[0].1));
        assert(split_pieces(s@, seq![','])[1] == s@.subrange(rr[1].0, rr[1].1));
        match (parse_i32(s, parts[0].0, parts[0].1), parse_i32(s, parts[1].0, parts[1].1)) {
            (Some(x), Some(y)) => Ok(Pos { x, y }),
            _ => Err("a coordinate is not a number"),
        }
    }
}

impl Line {
    /// Reads a line written `x1,y1 -> x2,y2`.
    pub fn try_from(s: &str) -> (r: Result<Line, &'static str>)
        ensures
            match r {
                Ok(l) => spec_line(s@) == Some(l),
                Err(_) => spec_line(s@).is_none(),
            },
    {
        proof {
            reveal_strlit(" -> ");
            assert(" -> "@ =~= seq![' ', '-', '>', ' ']);
        }
        let parts = split_at_sep(s, " -> ");
        let ghost rr = split_ranges(s@, seq![' ', '-', '>', ' '], 0, 0);
        if parts.len() != 2 {
            return Err("a line has two ends");
        }
        let ghost p0 = split_pieces(s@, seq![' ', '-', '>', ' '])[0];
        let ghost p1 = split_pieces(s@, seq![' ', '-', '>', ' '])[1];
        assert(p0 == s@.subrange(rr[0].0, rr[0].1));
        assert(p1 == s@.subrange(rr[1].0, rr[1].1));
        let a = Pos::try_from(s.substring_char(parts[0].0, parts[0].1));
        let b = Pos::try_from(s.substring_char(parts[1].0, parts[1].1));
        match (a, b) {
            (Ok(a), Ok(b)) => Ok(Line { start: a, end: b }),
            _ => Err("an end is not a point"),
        }
    }

    /// Whether the line is horizontal or vertical.
    pub fn is_horz_vert(&self) -> (r: bool)
        ensures
            r == (self.start.x == self.end.x || self.start.y == self.end.y),
    {
        self.start.x == self.end.x || self.start.y == self.end.y
    }
}

impl Vents {
    /// The entries, one per point marked.
    pub closed spec fn entries(&self) -> Seq<(Pos, u64)> {
        self.counts@
    }

    /// No point has two entries.
    pub open spec fn wf(&self) -> bool {
        forall|i: int, j: int|
            0 <= i < j < self.entries().len() ==> #[trigger] self.entries()[i].0 != #[trigger] self.entries()[j].0
    }

    /// How many times `p` has been marked.
    pub open spec fn count_of(&self, p: Pos) -> nat {
        if exists|i: int| 0 <= i < self.entries().len() && self.entries()[i].0 == p {
            self.entries()[choose|i: int| 0 <= i < self.entries().len() && self.entries()[i].0 == p].1 as nat
        } else {
            0
        }
    }

    /// Nothing marked.
    pub fn new() -> (r: Vents)
        ensures
            r.wf(),
            forall|p: Pos| r.count_of(p) == 0,
    {
        Vents { counts: Vec::new() }
    }

    proof fn lemma_count_at(&self, i: int)
        requires
            self.wf(),
            0 <= i < self.entries().len(),
        ensures
            self.count_of(self.entries()[i].0) == self.entries()[i].1,
    {
        let p = self.entries()[i].0;
        let j = choose|j: int| 0 <= j < self.entries().len() && self.entries()[j].0 == p;
        if j != i {
            if j < i {
                assert(self.entries()[j].0 != self.entries()[i].0);
            } else {
                assert(self.entries()[i].0 != self.entries()[j].0);
            }
        }
    }

    /// Marks `p` once more.
    pub fn add(&mut self, p: Pos)
        requires
            old(self).wf(),
            old(self).count_of(p) < u64::MAX,
        ensures
            final(self).wf(),
            forall|q: Pos| #[trigger] final(self).count_of(q) == old(self).count_of(q) + if q == p {
                1nat
            } else {
                0nat
            },
    {
        let mut i: usize = 0;
        while i < self.counts.len()
            invariant
                i <= self.counts@.len(),
                *self == *old(self),
                old(self).wf(),
                old(self).count_of(p) < u64::MAX,
                forall|j: int| 0 <= j < i ==> self.counts@[j].0 != p,
            decreases self.counts@.len() - i,
        {
            if self.counts[i].0 == p {
                proof {
                    old(self).lemma_count_at(i as int);
                }
                let c = self.counts[i].1;
                self.counts.set(i, (p, c + 1));
                proof {
                    assert(self.wf()) by {
                        assert forall|a: int, b: int| 0 <= a < b < self.entries().len() implies #[trigger] self.entries()[a].0
                            != #[trigger] self.entries()[b].0 by {
                            assert(old(self).entries()[a].0 == self.entries()[a].0);
                            assert(old(self).entries()[b].0 == self.entries()[b].0);
                        }
                    }
                    assert forall|q: Pos| #[trigger] self.count_of(q) == old(self).count_of(q) + if q == p {
                        1nat
                    } else {
                        0nat
                    } by {
                        if q == p {
                            self.lemma_count_at(i as int);
                        } else {
                            if exists|j: int| 0 <= j < old(self).entries().len() && old(self).entries()[j].0 == q {
                                let j = choose|j: int| 0 <= j < old(self).entries().len() && old(self).entries()[j].0 == q;
                                old(self).lemma_count_at(j);
                                self.lemma_count_at(j);
                            } else {
                                assert(!exists|j: int| 0 <= j < self.entries().len() && self.entries()[j].0 == q) by {
                                    if exists|j: int| 0 <= j < self.entries().len() && self.entries()[j].0 == q {
                                        let j = choose|j: int| 0 <= j < self.entries().len() && self.entries()[j].0 == q;
                                        assert(old(self).entries()[j].0 == q);
                                    }
                                }
                            }
                        }
                    }
                }
                return;
            }
            i = i + 1;
        }
        self.counts.push((p, 1));
        proof {
            let n = old(self).entries().len();
            assert forall|q: Pos| #[trigger] self.count_of(q) == old(self).count_of(q) + if q == p {
                1nat
            } else {
                0nat
            } by {
                if q == p {
                    self.lemma_count_at(n as int);
                    assert(!exists|j: int| 0 <= j < old(self).entries().len() && old(self).entries()[j].0 == p);
                } else if exists|j: int| 0 <= j < old(self).entries().len() && old(self).entries()[j].0 == q {
                    let j = choose|j: int| 0 <= j < old(self).entries().len() && old(self).entries()[j].0 == q;
                    old(self).lemma_count_at(j);
                    self.lemma_count_at(j);
                } else {
                    assert(!exists|j: int| 0 <= j < self.entries().len() && self.entries()[j].0 == q) by {
                        if exists|j: int| 0 <= j < self.entries().len() && self.entries()[j].0 == q {
                            let j = choose|j: int| 0 <= j < self.entries().len() && self.entries()[j].0 == q;
                            assert(j < n);
                            assert(old(self).entries()[j].0 == q);
                        }
                    }
                }
            }
        }
    }

    /// Whether every point can be marked once more.
    pub fn has_room(&self) -> (r: bool)
        requires
            self.wf(),
        ensures
            r == forall|p: Pos| #[trigger] self.count_of(p) < u64::MAX,
    {
        let mut i: usize = 0;
        while i < self.counts.len()
            invariant
                i <= self.counts@.len(),
                self.wf(),
                forall|j: int| 0 <= j < i ==> self.counts@[j].1 < u64::MAX,
            decreases self.counts@.len() - i,
        {
            if self.counts[i].1 == u64::MAX {
                proof {
                    self.lemma_count_at(i as int);
                }
                return false;
            }
            i = i + 1;
        }
        assert forall|p: Pos| #[trigger] self.count_of(p) < u64::MAX by {
            if exists|j: int| 0 <= j < self.entries().len() && self.entries()[j].0 == p {
                let j = choose|j: int| 0 <= j < self.entries().len() && self.entries()[j].0 == p;
                self.lemma_count_at(j);
            }
        }
        true
    }

    /// How many entries count more than one.
    pub open spec fn overlaps_in(e: Seq<(Pos, u64)>) -> nat
        decreases e.len(),
    {
        if e.len() == 0 {
            0
        } else {
            Self::overlaps_in(e.drop_last()) + if e.last().1 > 1 {
                1nat
            } else {
                0nat
            }
        }
    }

    /// The number of points marked more than once.
    pub fn overlaps(&self) -> (r: usize)
        ensures
            r == Self::overlaps_in(self.entries()),
    {
        let mut n: usize = 0;
        let mut i: usize = 0;
        while i < self.counts.len()
            invariant
                i <= self.counts@.len(),
                n == Self::overlaps_in(self.counts@.subrange(0, i as int)),
                n <= i,
            decreases self.counts@.len() - i,
        {
            assert(self.counts@.subrange(0, i + 1).drop_last() == self.counts@.subrange(0, i as int));
            if self.counts[i].1 > 1 {
                n = n + 1;
            }
            i = i + 1;
        }
        assert(self.counts@.subrange(0, i as int) == self.counts@);
        n
    }
}

impl Line {
    /// Marks each point of the line once in `v`.
    pub fn mark(&self, v: &mut Vents)
        requires
            old(v).wf(),
            forall|p: Pos| #[trigger] old(v).count_of(p) < u64::MAX,
        ensures
            final(v).wf(),
            forall|p: Pos| #[trigger] final(v).count_of(p) == old(v).count_of(p) + marks_on(*self, p),
    {
        let ghost l = *self;
        let dx: i64 = self.end.x as i64 - self.start.x as i64;
        let dy: i64 = self.end.y as i64 - self.start.y as i64;
        let (sx, sy, n): (i64, i64, i64) = if dx != 0 {
            let adx: i64 = if dx < 0 { -dx } else { dx };
            let q: i64 = if dy >= 0 {
                ((dy as u64) / (adx as u64)) as i64
            } else {
                0 - ((((0 - dy) as u64) / (adx as u64)) as i64)
            };
            (if dx > 0 { 1 } else { -1 }, q, adx + 1)
        } else if dy != 0 {
            (0, if dy > 0 { 1 } else { -1 }, if dy < 0 { -dy + 1 } else { dy + 1 })
        } else {
            (0, 0, 0)
        };
        assert((sx as int, sy as int, n as int) == line_steps(l));
        let mut i: i64 = 0;
        while i < n
            invariant
                0 <= i <= n,
                l == *self,
                (sx as int, sy as int, n as int) == line_steps(l),
                dx == l.end.x - l.start.x,
                dy == l.end.y - l.start.y,
                v.wf(),
                forall|p: Pos| #[trigger] old(v).count_of(p) < u64::MAX,
                forall|p: Pos| #[trigger] v.count_of(p) == old(v).count_of(p) + if exists|j: int|
                    0 <= j < i && line_point(l, j) == (p.x as int, p.y as int) {
                    1nat
                } else {
                    0nat
                },
            decreases n - i,
        {
            proof {
                lemma_point_bounds(l, i as int);
            }
            let px: i64 = self.start.x as i64 + i * sx;
            let py: i64 = self.start.y as i64 + i * sy;
            let p = Pos { x: px as i32, y: py as i32 };
            assert(line_point(l, i as int) == (p.x as int, p.y as int));
            assert(!exists|j: int| 0 <= j < i && line_point(l, j) == (p.x as int, p.y as int)) by {
                if exists|j: int| 0 <= j < i && line_point(l, j) == (p.x as int, p.y as int) {
                    let j = choose|j: int| 0 <= j < i && line_point(l, j) == (p.x as int, p.y as int);
                    lemma_points_distinct(l, j, i as int);
                }
            }
            v.add(p);
            assert forall|q: Pos| #[trigger] v.count_of(q) == old(v).count_of(q) + if exists|j: int|
                0 <= j < i + 1 && line_point(l, j) == (q.x as int, q.y as int) {
                1nat
            } else {
                0nat
            } by {
                if q == p {
                    assert(line_point(l, i as int) == (q.x as int, q.y as int));
                } else if exists|j: int| 0 <= j < i + 1 && line_point(l, j) == (q.x as int, q.y as int) {
                    let j = choose|j: int| 0 <= j < i + 1 && line_point(l, j) == (q.x as int, q.y as int);
                    assert(j != i);
                }
            }
            i = i + 1;
        }
    }
}

/// Each point of a line lies between its ends, so it fits an `i32`; the step
/// arithmetic stays far inside an `i64`.
proof fn lemma_point_bounds(l: Line, i: int)
    requires
        0 <= i < line_steps(l).2,
    ensures
        i32::MIN <= line_point(l, i).0 <= i32::MAX,
        i32::MIN <= line_point(l, i).1 <= i32::MAX,
        -0x1_0000_0000 <= i * line_steps(l).0 <= 0x1_0000_0000,
        -0x1_0000_0000 <= i * line_steps(l).1 <= 0x1_0000_0000,
{
    let dx = l.end.x - l.start.x;
    let dy = l.end.y - l.start.y;
    if dx != 0 {
        let adx = abs(dx);
        let ady = abs(dy);
        let q = ady / adx;
        assert(adx * q <= ady) by (nonlinear_arith)
            requires
                adx > 0,
                ady >= 0,
                q == ady / adx,
        ;
        assert(0 <= i * q <= adx * q) by (nonlinear_arith)
            requires
                0 <= i <= adx,
                q >= 0,
        ;
        if dy >= 0 {
            assert(trunc_div(dy, adx) == q);
        } else {
            assert(trunc_div(dy, adx) == -q);
            assert(i * (-q) == -(i * q)) by (nonlinear_arith);
        }
        if dx > 0 {
            assert(i * 1 == i);
        } else {
            assert(i * (-1) == -i) by (nonlinear_arith);
        }
    } else if dy != 0 {
        if dy > 0 {
            assert(i * 1 == i);
        } else {
            assert(i * (-1) == -i) by (nonlinear_arith);
        }
        assert(i * 0 == 0);
    }
}

/// A line never marks the same point twice.
proof fn lemma_points_distinct(l: Line, j: int, i: int)
    requires
        0 <= j < i < line_steps(l).2,
    ensures
        line_point(l, j) != line_point(l, i),
{
    let (sx, sy, n) = line_steps(l);
    if sx != 0 {
        assert(j * sx != i * sx) by (nonlinear_arith)
            requires
                j < i,
                sx == 1 || sx == -1,
        ;
    } else {
        assert(j * sy != i * sy) by (nonlinear_arith)
            requires
                j < i,
                sy == 1 || sy == -1,
        ;
    }
}

} // verus!
