use vstd::prelude::*;
use std::collections::VecDeque;
use crate::grid::Grid;
use crate::order::{ascending, sort_ascending};

verus! {

/// The cells beside `(x, y)` in a grid `w` wide and `h` high: left, right,
/// above and below, where they exist.
pub open spec fn side_cells(x: int, y: int, w: int, h: int) -> Seq<(usize, usize)> {
    (if x > 0 {
        seq![((x - 1) as usize, y as usize)]
    } else {
        seq![]
    }) + (if x + 1 < w {
        seq![((x + 1) as usize, y as usize)]
    } else {
        seq![]
    }) + (if y > 0 {
        seq![(x as usize, (y - 1) as usize)]
    } else {
        seq![]
    }) + (if y + 1 < h {
        seq![(x as usize, (y + 1) as usize)]
    } else {
        seq![]
    })
}

/// The cells beside `(x, y)`, in the order left, right, above, below.
pub fn side_neighbors(x: usize, y: usize, w: usize, h: usize) -> (r: Vec<(usize, usize)>)
    requires
        x < w,
        y < h,
    ensures
        r@ == side_cells(x as int, y as int, w as int, h as int),
{
    let mut r: Vec<(usize, usize)> = Vec::new();
    if x > 0 {
        r.push((x - 1, y));
    }
    if x + 1 < w {
        r.push((x + 1, y));
    }
    if y > 0 {
        r.push((x, y - 1));
    }
    if y + 1 < h {
        r.push((x, y + 1));
    }
    assert(r@ =~= side_cells(x as int, y as int, w as int, h as int));
    r
}

/// Whether `q` is beside `p`.
pub open spec fn beside(w: int, h: int, p: (usize, usize), q: (usize, usize)) -> bool {
    side_cells(p.0 as int, p.1 as int, w, h).contains(q)
}

/// What lies beside a cell lies in the grid, one step across or down from it.
#[verifier::rlimit(40)]
pub proof fn lemma_beside(w: int, h: int, p: (usize, usize), q: (usize, usize))
    requires
        p.0 < w <= usize::MAX,
        p.1 < h <= usize::MAX,
    ensures
        beside(w, h, p, q) <==> (q.0 < w && q.1 < h && ((q.1 == p.1 && (q.0 + 1 == p.0 || p.0 + 1 == q.0)) || (q.0 == p.0
            && (q.1 + 1 == p.1 || p.1 + 1 == q.1)))),
{
    let s = side_cells(p.0 as int, p.1 as int, w, h);
    if q.0 < w && q.1 < h && ((q.1 == p.1 && (q.0 + 1 == p.0 || p.0 + 1 == q.0)) || (q.0 == p.0 && (q.1 + 1 == p.1
        || p.1 + 1 == q.1))) {
        let a = if p.0 > 0 { 1int } else { 0 };
        let b = if p.0 + 1 < w { 1int } else { 0 };
        let c = if p.1 > 0 { 1int } else { 0 };
        if q.0 + 1 == p.0 && q.1 == p.1 {
            assert(s[0] == q);
        } else if p.0 + 1 == q.0 && q.1 == p.1 {
            assert(s[a] == q);
        } else if q.1 + 1 == p.1 && q.0 == p.0 {
            assert(s[a + b] == q);
        } else {
            assert(s[a + b + c] == q);
        }
    }
}

/// The height at `p`.
pub open spec fn height(c: Seq<Seq<u32>>, p: (usize, usize)) -> int {
    c[p.1 as int][p.0 as int] as int
}

pub open spec fn marked(v: Seq<Seq<bool>>, p: (usize, usize)) -> bool {
    v[p.1 as int][p.0 as int]
}

pub open spec fn in_grid(w: int, h: int, p: (usize, usize)) -> bool {
    p.0 < w && p.1 < h
}

/// A cell a basin may take: in the grid, not visited before, and below nine.
pub open spec fn open_cell(c: Seq<Seq<u32>>, v: Seq<Seq<bool>>, w: int, h: int, p: (usize, usize)) -> bool {
    in_grid(w, h, p) && !marked(v, p) && height(c, p) < 9
}

/// A set that takes the seed, where the seed is open, and every open cell
/// beside a cell it holds.
pub open spec fn basin_closed(
    c: Seq<Seq<u32>>,
    v: Seq<Seq<bool>>,
    w: int,
    h: int,
    seed: (usize, usize),
    s: Set<(usize, usize)>,
) -> bool {
    &&& (open_cell(c, v, w, h, seed) ==> s.contains(seed))
    &&& forall|p: (usize, usize), q: (usize, usize)|
        #[trigger] s.contains(p) && in_grid(w, h, p) && #[trigger] beside(w, h, p, q) && open_cell(c, v, w, h, q)
            ==> s.contains(q)
}

/// `r` is the basin of `seed`: open cells only, closed as above, and inside
/// every set closed as above.
pub open spec fn is_basin(
    c: Seq<Seq<u32>>,
    v: Seq<Seq<bool>>,
    w: int,
    h: int,
    seed: (usize, usize),
    r: Set<(usize, usize)>,
) -> bool {
    &&& forall|p: (usize, usize)| #[trigger] r.contains(p) ==> open_cell(c, v, w, h, p)
    &&& basin_closed(c, v, w, h, seed, r)
    &&& forall|s: Set<(usize, usize)>, p: (usize, usize)|
        basin_closed(c, v, w, h, seed, s) && #[trigger] r.contains(p) ==> #[trigger] s.contains(p)
}

/// The cells that `v1` marks and `v0` does not.
pub open spec fn newly(v0: Seq<Seq<bool>>, v1: Seq<Seq<bool>>, w: int, h: int) -> Set<(usize, usize)> {
    Set::new(|p: (usize, usize)| in_grid(w, h, p) && marked(v1, p) && !marked(v0, p))
}

pub open spec fn shaped<T>(c: Seq<Seq<T>>, w: int, h: int) -> bool {
    c.len() == h && forall|y: int| 0 <= y < h ==> #[trigger] c[y].len() == w
}

pub open spec fn row_marks(r: Seq<bool>) -> nat
    decreases r.len(),
{
    if r.len() == 0 {
        0
    } else {
        row_marks(r.drop_last()) + if r.last() {
            1nat
        } else {
            0nat
        }
    }
}

/// How many cells are marked.
pub open spec fn mark_total(v: Seq<Seq<bool>>) -> nat
    decreases v.len(),
{
    if v.len() == 0 {
        0
    } else {
        mark_total(v.drop_last()) + row_marks(v.last())
    }
}

/// How many cells are not marked.
pub open spec fn clear_total(v: Seq<Seq<bool>>) -> nat
    decreases v.len(),
{
    if v.len() == 0 {
        0
    } else {
        clear_total(v.drop_last()) + (v.last().len() - row_marks(v.last())) as nat
    }
}

proof fn lemma_row_marks_bound(r: Seq<bool>)
    ensures
        row_marks(r) <= r.len(),
    decreases r.len(),
{
    if r.len() > 0 {
        lemma_row_marks_bound(r.drop_last());
    }
}

proof fn lemma_row_marks_set(r: Seq<bool>, x: int)
    requires
        0 <= x < r.len(),
        !r[x],
    ensures
        row_marks(r.update(x, true)) == row_marks(r) + 1,
    decreases r.len(),
{
    let r2 = r.update(x, true);
    if x == r.len() - 1 {
        assert(r2.drop_last() == r.drop_last());
    } else {
        assert(r2.drop_last() == r.drop_last().update(x, true));
        lemma_row_marks_set(r.drop_last(), x);
    }
}

/// Marking a clear cell adds one marked cell and takes one clear cell away.
proof fn lemma_mark_cell(v: Seq<Seq<bool>>, x: int, y: int)
    requires
        0 <= y < v.len(),
        0 <= x < v[y].len(),
        !v[y][x],
    ensures
        mark_total(v.update(y, v[y].update(x, true))) == mark_total(v) + 1,
        clear_total(v.update(y, v[y].update(x, true))) + 1 == clear_total(v),
    decreases v.len(),
{
    let v2 = v.update(y, v[y].update(x, true));
    lemma_row_marks_set(v[y], x);
    lemma_row_marks_bound(v[y]);
    lemma_row_marks_bound(v[y].update(x, true));
    if y == v.len() - 1 {
        assert(v2.drop_last() == v.drop_last());
    } else {
        assert(v2.drop_last() == v.drop_last().update(y, v[y].update(x, true)));
        lemma_mark_cell(v.drop_last(), x, y);
    }
}

/// The marks held in `v`.
pub open spec fn view2(v: Seq<Vec<bool>>) -> Seq<Seq<bool>> {
    v.map_values(|r: Vec<bool>| r@)
}

fn set_mark(v: &mut Vec<Vec<bool>>, x: usize, y: usize)
    requires
        y < old(v)@.len(),
        x < old(v)@[y as int]@.len(),
    ensures
        view2(final(v)@) == view2(old(v)@).update(y as int, view2(old(v)@)[y as int].update(x as int, true)),
{
    v[y].set(x, true);
    assert(view2(v@) =~= view2(old(v)@).update(y as int, view2(old(v)@)[y as int].update(x as int, true)));
}

/// Fills the basin of `(x, y)`: the cell itself, where it is not visited yet
/// and below nine, and every such cell reached from it by steps left, right,
/// up or down through such cells. Marks them visited and returns how many.
pub fn flood(heights: &Grid<u32>, visited: &mut Vec<Vec<bool>>, x: usize, y: usize) -> (r: usize)
    requires
        heights.wf(),
        shaped(heights.cells(), heights.spec_width() as int, heights.spec_height() as int),
        shaped(view2(old(visited)@), heights.spec_width() as int, heights.spec_height() as int),
        heights.spec_width() * heights.spec_height() <= usize::MAX,
        x < heights.spec_width(),
        y < heights.spec_height(),
    ensures
        shaped(view2(final(visited)@), heights.spec_width() as int, heights.spec_height() as int),
        forall|p: (usize, usize)|
            in_grid(heights.spec_width() as int, heights.spec_height() as int, p) && #[trigger] marked(
                view2(old(visited)@),
                p,
            ) ==> marked(view2(final(visited)@), p),
        is_basin(
            heights.cells(),
            view2(old(visited)@),
            heights.spec_width() as int,
            heights.spec_height() as int,
            (x, y),
            newly(
                view2(old(visited)@),
                view2(final(visited)@),
                heights.spec_width() as int,
                heights.spec_height() as int,
            ),
        ),
        r + mark_total(view2(old(visited)@)) == mark_total(view2(final(visited)@)),
{
    let (w, h) = heights.size();
    let ghost ww = w as int;
    let ghost hh = h as int;
    let ghost c = heights.cells();
    let ghost v0 = view2(visited@);
    let ghost seed = (x, y);
    proof {
        lemma_mark_sum(v0, ww);
    }
    let mut working: VecDeque<(usize, usize)> = VecDeque::new();
    working.push_back((x, y));
    assert(working@[0] == seed);
    let mut count: usize = 0;
    while working.len() > 0
        invariant
            ww == w,
            hh == h,
            w * h <= usize::MAX,
            c == heights.cells(),
            shaped(c, ww, hh),
            shaped(v0, ww, hh),
            shaped(view2(visited@), ww, hh),
            in_grid(ww, hh, seed),
            forall|p: (usize, usize)| in_grid(ww, hh, p) && #[trigger] marked(v0, p) ==> marked(view2(visited@), p),
            forall|p: (usize, usize)| #[trigger] newly(v0, view2(visited@), ww, hh).contains(p) ==> open_cell(c, v0, ww, hh, p),
            forall|s: Set<(usize, usize)>, p: (usize, usize)|
                basin_closed(c, v0, ww, hh, seed, s) && #[trigger] newly(v0, view2(visited@), ww, hh).contains(p)
                    ==> #[trigger] s.contains(p),
            forall|i: int|
                0 <= i < working@.len() ==> in_grid(ww, hh, #[trigger] working@[i]) && (working@[i] == seed || exists|
                    d: (usize, usize),
                | #[trigger] newly(v0, view2(visited@), ww, hh).contains(d) && beside(ww, hh, d, working@[i])),
            forall|d: (usize, usize), n: (usize, usize)|
                #[trigger] newly(v0, view2(visited@), ww, hh).contains(d) && #[trigger] beside(ww, hh, d, n) && open_cell(
                    c,
                    v0,
                    ww,
                    hh,
                    n,
                ) ==> marked(view2(visited@), n) || working@.contains(n),
            open_cell(c, v0, ww, hh, seed) ==> marked(view2(visited@), seed) || working@.contains(seed),
            count + mark_total(v0) == mark_total(view2(visited@)),
            mark_total(view2(visited@)) + clear_total(view2(visited@)) == ww * hh,
        decreases clear_total(view2(visited@)), working@.len(),
    {
        let ghost vb = view2(visited@);
        let ghost qb = working@;
        let (qx, qy) = match working.pop_front() {
            Some(p) => p,
            None => {
                return count;
            },
        };
        let ghost q = (qx, qy);
        assert(qb[0] == q);
        assert(in_grid(ww, hh, q));
        assert forall|p: (usize, usize)| qb.contains(p) && p != q implies working@.contains(p) by {
            let i = choose|i: int| 0 <= i < qb.len() && qb[i] == p;
            assert(working@[i - 1] == p);
        }
        assert(visited@[qy as int]@ == vb[qy as int]);
        if visited[qy][qx] || *heights.index(qx, qy) >= 9 {
            assert(marked(vb, q) || !open_cell(c, v0, ww, hh, q));
            continue;
        }
        proof {
            lemma_mark_cell(vb, qx as int, qy as int);
        }
        set_mark(visited, qx, qy);
        count = count + 1;
        let ghost vn = view2(visited@);
        assert(open_cell(c, v0, ww, hh, q));
        assert(newly(v0, vn, ww, hh) =~= newly(v0, vb, ww, hh).insert(q)) by {
            assert forall|p: (usize, usize)| newly(v0, vn, ww, hh).contains(p) == newly(v0, vb, ww, hh).insert(q).contains(p) by {
                if in_grid(ww, hh, p) && p != q {
                    assert(marked(vn, p) == marked(vb, p));
                }
            }
        }
        assert forall|s: Set<(usize, usize)>| basin_closed(c, v0, ww, hh, seed, s) implies s.contains(q) by {
            if q != seed {
                let d = choose|d: (usize, usize)| #[trigger] newly(v0, vb, ww, hh).contains(d) && beside(ww, hh, d, q);
                assert(s.contains(d));
            }
        }
        let nbrs = side_neighbors(qx, qy, w, h);
        let ghost w1 = working@;
        let mut k: usize = 0;
        while k < nbrs.len()
            invariant
                k <= nbrs@.len(),
                nbrs@ == side_cells(qx as int, qy as int, ww, hh),
                working@ == w1 + nbrs@.subrange(0, k as int),
                in_grid(ww, hh, q),
                ww <= usize::MAX,
                hh <= usize::MAX,
            decreases nbrs@.len() - k,
        {
            working.push_back(nbrs[k]);
            assert(working@ =~= w1 + nbrs@.subrange(0, k + 1));
            k = k + 1;
        }
        assert(nbrs@.subrange(0, nbrs@.len() as int) == nbrs@);
        proof {
            let nw = newly(v0, vn, ww, hh);
            assert forall|i: int| 0 <= i < working@.len() implies in_grid(ww, hh, #[trigger] working@[i]) && (working@[i]
                == seed || exists|d: (usize, usize)| #[trigger] nw.contains(d) && beside(ww, hh, d, working@[i])) by {
                let e = working@[i];
                if i < w1.len() {
                    assert(w1[i] == qb[i + 1]);
                    if e != seed {
                        let d = choose|d: (usize, usize)| #[trigger] newly(v0, vb, ww, hh).contains(d) && beside(ww, hh, d, qb[i + 1]);
                        assert(nw.contains(d));
                    }
                } else {
                    let j = i - w1.len();
                    assert(e == nbrs@[j]);
                    assert(nbrs@.contains(e));
                    assert(nw.contains(q));
                    assert(beside(ww, hh, q, e));
                    lemma_beside(ww, hh, q, e);
                    assert(in_grid(ww, hh, e));
                }
            }
            assert forall|d: (usize, usize), n: (usize, usize)|
                #[trigger] nw.contains(d) && #[trigger] beside(ww, hh, d, n) && open_cell(c, v0, ww, hh, n) implies marked(
                vn,
                n,
            ) || working@.contains(n) by {
                if d == q {
                    let j = choose|j: int| 0 <= j < nbrs@.len() && nbrs@[j] == n;
                    assert(working@[w1.len() + j] == n);
                } else {
                    assert(newly(v0, vb, ww, hh).contains(d));
                    if !marked(vb, n) {
                        assert(qb.contains(n));
                        if n == q {
                        } else {
                            assert(w1.contains(n));
                            let j = choose|j: int| 0 <= j < w1.len() && w1[j] == n;
                            assert(working@[j] == n);
                        }
                    } else {
                        if n != q {
                            assert(marked(vn, n) == marked(vb, n));
                        }
                    }
                }
            }
            if open_cell(c, v0, ww, hh, seed) && !marked(vn, seed) {
                assert(seed != q);
                assert(marked(vn, seed) == marked(vb, seed));
                assert(w1.contains(seed));
                let j = choose|j: int| 0 <= j < w1.len() && w1[j] == seed;
                assert(working@[j] == seed);
            }
            assert forall|p: (usize, usize)| in_grid(ww, hh, p) && #[trigger] marked(v0, p) implies marked(vn, p) by {
                if p != q {
                    assert(marked(vn, p) == marked(vb, p));
                }
            }
        }
    }
    count
}

proof fn lemma_mark_sum(v: Seq<Seq<bool>>, w: int)
    requires
        w >= 0,
        forall|y: int| 0 <= y < v.len() ==> #[trigger] v[y].len() == w,
    ensures
        mark_total(v) + clear_total(v) == v.len() * w,
    decreases v.len(),
{
    if v.len() > 0 {
        let pre = v.drop_last();
        assert forall|y: int| 0 <= y < pre.len() implies #[trigger] pre[y].len() == w by {
            assert(pre[y] == v[y]);
        }
        lemma_mark_sum(pre, w);
        lemma_row_marks_bound(v.last());
        assert(v.last().len() == w);
        assert((v.len() - 1) * w + w == v.len() * w) by (nonlinear_arith);
    }
}

/// A basin does not depend on which of its cells it is filled from: filling
/// from any cell of the basin of `s1` gives that same basin.
pub proof fn lemma_basin_seed_independent(
    c: Seq<Seq<u32>>,
    v: Seq<Seq<bool>>,
    w: int,
    h: int,
    s1: (usize, usize),
    s2: (usize, usize),
    r1: Set<(usize, usize)>,
    r2: Set<(usize, usize)>,
)
    requires
        0 <= w <= usize::MAX,
        0 <= h <= usize::MAX,
        is_basin(c, v, w, h, s1, r1),
        is_basin(c, v, w, h, s2, r2),
        r1.contains(s2),
    ensures
        r1 == r2,
{
    assert(basin_closed(c, v, w, h, s2, r1));
    if !r2.contains(s1) {
        let x = r1.difference(r2);
        assert(basin_closed(c, v, w, h, s1, x)) by {
            assert forall|p: (usize, usize), q: (usize, usize)|
                #[trigger] x.contains(p) && in_grid(w, h, p) && #[trigger] beside(w, h, p, q) && open_cell(c, v, w, h, q)
                    implies x.contains(q) by {
                assert(r1.contains(q));
                if r2.contains(q) {
                    lemma_beside(w, h, p, q);
                    lemma_beside(w, h, q, p);
                    assert(beside(w, h, q, p));
                    assert(open_cell(c, v, w, h, p));
                    assert(r2.contains(p));
                }
            }
        }
        assert(x.contains(s2));
        assert(open_cell(c, v, w, h, s2));
    }
    assert(basin_closed(c, v, w, h, s1, r2));
    assert(r1 =~= r2) by {
        assert forall|p: (usize, usize)| r1.contains(p) implies r2.contains(p) by {}
        assert forall|p: (usize, usize)| r2.contains(p) implies r1.contains(p) by {}
    }
}

/// `p` is lower than every cell beside it.
pub open spec fn is_low(c: Seq<Seq<u32>>, w: int, h: int, p: (usize, usize)) -> bool {
    forall|q: (usize, usize)| #[trigger] beside(w, h, p, q) ==> height(c, p) < height(c, q)
}

/// `a` comes before `b` in row-major order.
pub open spec fn row_major_before(a: (usize, usize, u32), b: (usize, usize, u32)) -> bool {
    a.1 < b.1 || (a.1 == b.1 && a.0 < b.0)
}

/// `v` lists the low points of the map, each once with its height, in
/// row-major order; and the map is not a single cell.
pub open spec fn lows_ok(c: Seq<Seq<u32>>, w: int, h: int, v: Seq<(usize, usize, u32)>) -> bool {
    &&& !(w == 1 && h == 1)
    &&& forall|i: int|
        0 <= i < v.len() ==> in_grid(w, h, ((#[trigger] v[i]).0, v[i].1)) && is_low(c, w, h, (v[i].0, v[i].1)) && v[i].2
            == height(c, (v[i].0, v[i].1))
    &&& forall|p: (usize, usize)|
        in_grid(w, h, p) && is_low(c, w, h, p) ==> exists|i: int| 0 <= i < v.len() && #[trigger] v[i].0 == p.0 && v[i].1 == p.1
    &&& forall|i: int, j: int| 0 <= i < j < v.len() ==> row_major_before(#[trigger] v[i], #[trigger] v[j])
}

/// The low points of the height map, in row-major order, each with its
/// height: the cells lower than every cell beside them. Fails where a cell has
/// nothing beside it, which is a map of a single cell.
pub fn low_points(heights: &Grid<u32>) -> (r: Result<Vec<(usize, usize, u32)>, &'static str>)
    requires
        heights.wf(),
        shaped(heights.cells(), heights.spec_width() as int, heights.spec_height() as int),
    ensures
        match r {
            Ok(v) => lows_ok(heights.cells(), heights.spec_width() as int, heights.spec_height() as int, v@),
            Err(_) => heights.spec_width() == 1 && heights.spec_height() == 1,
        },
{
    let (w, h) = heights.size();
    let ghost c = heights.cells();
    let ghost ww = w as int;
    let ghost hh = h as int;
    let mut out: Vec<(usize, usize, u32)> = Vec::new();
    let mut y: usize = 0;
    while y < h
        invariant
            y <= h,
            ww == w,
            hh == h,
            c == heights.cells(),
            ww == heights.spec_width(),
            hh == heights.spec_height(),
            shaped(c, ww, hh),
            forall|i: int|
                0 <= i < out@.len() ==> in_grid(ww, hh, ((#[trigger] out@[i]).0, out@[i].1)) && out@[i].1 < y && is_low(
                    c,
                    ww,
                    hh,
                    (out@[i].0, out@[i].1),
                ) && out@[i].2 == height(c, (out@[i].0, out@[i].1)),
            forall|p: (usize, usize)|
                in_grid(ww, hh, p) && p.1 < y && is_low(c, ww, hh, p) ==> exists|i: int|
                    0 <= i < out@.len() && #[trigger] out@[i].0 == p.0 && out@[i].1 == p.1,
            forall|i: int, j: int| 0 <= i < j < out@.len() ==> row_major_before(#[trigger] out@[i], #[trigger] out@[j]),
            (ww == 1 && hh == 1) ==> y == 0,
        decreases h - y,
    {
        let mut x: usize = 0;
        while x < w
            invariant
                x <= w,
                y < h,
                ww == w,
                hh == h,
                c == heights.cells(),
                ww == heights.spec_width(),
                hh == heights.spec_height(),
                shaped(c, ww, hh),
                forall|i: int|
                    0 <= i < out@.len() ==> in_grid(ww, hh, ((#[trigger] out@[i]).0, out@[i].1)) && (out@[i].1 < y || (
                    out@[i].1 == y && out@[i].0 < x)) && is_low(c, ww, hh, (out@[i].0, out@[i].1)) && out@[i].2 == height(
                        c,
                        (out@[i].0, out@[i].1),
                    ),
                forall|p: (usize, usize)|
                    in_grid(ww, hh, p) && (p.1 < y || (p.1 == y && p.0 < x)) && is_low(c, ww, hh, p) ==> exists|i: int|
                        0 <= i < out@.len() && #[trigger] out@[i].0 == p.0 && out@[i].1 == p.1,
                forall|i: int, j: int| 0 <= i < j < out@.len() ==> row_major_before(#[trigger] out@[i], #[trigger] out@[j]),
                (ww == 1 && hh == 1) ==> x == 0,
            decreases w - x,
        {
            let ghost p = (x, y);
            let nbrs = side_neighbors(x, y, w, h);
            if nbrs.len() == 0 {
                proof {
                    let sc = side_cells(x as int, y as int, ww, hh);
                    assert(sc.len() == (if x > 0 { 1int } else { 0 }) + (if x + 1 < ww { 1int } else { 0 }) + (if y > 0 {
                        1int
                    } else {
                        0
                    }) + (if y + 1 < hh { 1int } else { 0 }));
                    assert(x == 0 && ww == 1 && y == 0 && hh == 1);
                }
                return Err("no min");
            }
            let here = *heights.index(x, y);
            let mut low = true;
            let mut k: usize = 0;
            while k < nbrs.len()
                invariant
                    k <= nbrs@.len(),
                    nbrs@ == side_cells(x as int, y as int, ww, hh),
                    c == heights.cells(),
                    shaped(c, ww, hh),
                    x < w,
                    y < h,
                    ww == w,
                    hh == h,
                    here == height(c, p),
                    p == (x, y),
                    low == forall|j: int| 0 <= j < k ==> here < height(c, #[trigger] nbrs@[j]),
                decreases nbrs@.len() - k,
            {
                let (nx, ny) = nbrs[k];
                proof {
                    lemma_beside(ww, hh, p, nbrs@[k as int]);
                    assert(beside(ww, hh, p, nbrs@[k as int]));
                }
                let other = *heights.index(nx, ny);
                if !(here < other) {
                    low = false;
                }
                k = k + 1;
            }
            assert(low == is_low(c, ww, hh, p)) by {
                if low {
                    assert forall|q: (usize, usize)| #[trigger] beside(ww, hh, p, q) implies height(c, p) < height(c, q) by {
                        let j = choose|j: int| 0 <= j < nbrs@.len() && nbrs@[j] == q;
                    }
                } else {
                    let j = choose|j: int| 0 <= j < nbrs@.len() && !(here < height(c, #[trigger] nbrs@[j]));
                    assert(beside(ww, hh, p, nbrs@[j]));
                }
            }
            if low {
                let ghost before = out@;
                out.push((x, y, here));
                assert(out@[out@.len() - 1] == (x, y, here));
                assert forall|i: int, j: int| 0 <= i < j < out@.len() implies row_major_before(#[trigger] out@[i], #[trigger] out@[j]) by {
                    if j == out@.len() - 1 {
                        assert(out@[i] == before[i]);
                        assert(before[i].1 < y || (before[i].1 == y && before[i].0 < x));
                    } else {
                        assert(out@[i] == before[i] && out@[j] == before[j]);
                    }
                }
                assert forall|q: (usize, usize)|
                    in_grid(ww, hh, q) && (q.1 < y || (q.1 == y && q.0 < x + 1)) && is_low(c, ww, hh, q) implies exists|i: int|
                    0 <= i < out@.len() && #[trigger] out@[i].0 == q.0 && out@[i].1 == q.1 by {
                    if q == p {
                        assert(out@[out@.len() - 1].0 == q.0 && out@[out@.len() - 1].1 == q.1);
                    } else {
                        let i = choose|i: int| 0 <= i < before.len() && #[trigger] before[i].0 == q.0 && before[i].1 == q.1;
                        assert(out@[i] == before[i]);
                    }
                }
            }
            x = x + 1;
        }
        y = y + 1;
    }
    assert(lows_ok(c, ww, hh, out@));
    Ok(out)
}

/// The sum of one more than the height of each low point.
pub open spec fn risk_of(v: Seq<(usize, usize, u32)>) -> nat
    decreases v.len(),
{
    if v.len() == 0 {
        0
    } else {
        risk_of(v.drop_last()) + v.last().2 as nat + 1
    }
}

/// The total risk level of the low points: one more than each height.
pub fn risk_level(lows: &Vec<(usize, usize, u32)>) -> (r: u64)
    requires
        lows@.len() <= u32::MAX,
    ensures
        r == risk_of(lows@),
{
    let mut total: u64 = 0;
    let mut i: usize = 0;
    while i < lows.len()
        invariant
            i <= lows@.len() <= u32::MAX,
            total == risk_of(lows@.subrange(0, i as int)),
            total <= i * 0x1_0000_0000,
        decreases lows@.len() - i,
    {
        assert(lows@.subrange(0, i + 1).drop_last() == lows@.subrange(0, i as int));
        assert(total + lows@[i as int].2 + 1 <= (i + 1) * 0x1_0000_0000) by (nonlinear_arith)
            requires
                total <= i * 0x1_0000_0000,
                lows@[i as int].2 <= u32::MAX,
        ;
        assert((i + 1) * 0x1_0000_0000 <= 0x1_0000_0000 * 0x1_0000_0000) by (nonlinear_arith)
            requires
                i + 1 <= 0x1_0000_0000,
        ;
        total = total + lows[i].2 as u64 + 1;
        i = i + 1;
    }
    assert(lows@.subrange(0, i as int) == lows@);
    total
}

/// The product of the three largest sizes (of all of them, where there are
/// fewer).
pub open spec fn top_three_product(v: Seq<usize>) -> nat {
    let s = ascending(v.map_values(|x: usize| x as u64));
    let n = s.len();
    (if n >= 1 {
        s[n - 1] as nat
    } else {
        1nat
    }) * (if n >= 2 {
        s[n - 2] as nat
    } else {
        1nat
    }) * (if n >= 3 {
        s[n - 3] as nat
    } else {
        1nat
    })
}

/// The product of the three largest basin sizes; `None` where it does not fit
/// a `u64`.
pub fn largest_three_product(sizes: &Vec<usize>) -> (r: Option<u64>)
    ensures
        r == (if top_three_product(sizes@) <= u64::MAX {
            Some(top_three_product(sizes@) as u64)
        } else {
            None
        }),
{
    let mut wide: Vec<u64> = Vec::new();
    let mut i: usize = 0;
    while i < sizes.len()
        invariant
            i <= sizes@.len(),
            wide@ == sizes@.subrange(0, i as int).map_values(|x: usize| x as u64),
        decreases sizes@.len() - i,
    {
        wide.push(sizes[i] as u64);
        assert(wide@ =~= sizes@.subrange(0, i + 1).map_values(|x: usize| x as u64));
        i = i + 1;
    }
    assert(sizes@.subrange(0, i as int) == sizes@);
    let s = sort_ascending(&wide);
    let n = s.len();
    let a: u64 = if n >= 1 { s[n - 1] } else { 1 };
    let b: u64 = if n >= 2 { s[n - 2] } else { 1 };
    let c: u64 = if n >= 3 { s[n - 3] } else { 1 };
    if a == 0 || b == 0 || c == 0 {
        assert(a * b * c == 0) by (nonlinear_arith)
            requires
                a == 0 || b == 0 || c == 0,
        ;
        return Some(0);
    }
    let ab = match a.checked_mul(b) {
        Some(v) => v,
        None => {
            assert(a * b * c >= a * b) by (nonlinear_arith)
                requires
                    c >= 1,
                    a * b >= 0,
            ;
            return None;
        },
    };
    ab.checked_mul(c)
}

/// Nothing visited, in a grid `w` wide and `h` high.
pub open spec fn none_visited(v: Seq<Seq<bool>>, w: int, h: int) -> bool {
    shaped(v, w, h) && forall|y: int, x: int| 0 <= y < h && 0 <= x < w ==> !#[trigger] v[y][x]
}

/// `vs` is the run of visited marks while the basins of `lows` are filled in
/// turn from nothing visited, and `sizes` holds how many cells each took.
pub open spec fn basin_run(
    c: Seq<Seq<u32>>,
    w: int,
    h: int,
    lows: Seq<(usize, usize, u32)>,
    vs: Seq<Seq<Seq<bool>>>,
    sizes: Seq<usize>,
) -> bool {
    &&& sizes.len() == lows.len()
    &&& vs.len() == sizes.len() + 1
    &&& none_visited(vs[0], w, h)
    &&& forall|i: int|
        0 <= i < sizes.len() ==> {
            &&& shaped(#[trigger] vs[i + 1], w, h)
            &&& is_basin(c, vs[i], w, h, (lows[i].0, lows[i].1), newly(vs[i], vs[i + 1], w, h))
            &&& sizes[i] + mark_total(vs[i]) == mark_total(vs[i + 1])
        }
}

/// The size of the basin of each low point, filled in turn so that no cell
/// counts twice.
pub fn basin_sizes(heights: &Grid<u32>, lows: &Vec<(usize, usize, u32)>) -> (r: Vec<usize>)
    requires
        heights.wf(),
        shaped(heights.cells(), heights.spec_width() as int, heights.spec_height() as int),
        heights.spec_width() * heights.spec_height() <= usize::MAX,
        forall|i: int|
            0 <= i < lows@.len() ==> in_grid(
                heights.spec_width() as int,
                heights.spec_height() as int,
                ((#[trigger] lows@[i]).0, lows@[i].1),
            ),
    ensures
        exists|vs: Seq<Seq<Seq<bool>>>|
            basin_run(heights.cells(), heights.spec_width() as int, heights.spec_height() as int, lows@, vs, r@),
{
    let (w, h) = heights.size();
    let ghost ww = w as int;
    let ghost hh = h as int;
    let mut visited: Vec<Vec<bool>> = Vec::new();
    let mut y: usize = 0;
    while y < h
        invariant
            y <= h,
            visited@.len() == y,
            forall|j: int| 0 <= j < y ==> #[trigger] visited@[j]@.len() == w && forall|x: int| 0 <= x < w ==> !visited@[j]@[x],
        decreases h - y,
    {
        let mut row: Vec<bool> = Vec::new();
        let mut x: usize = 0;
        while x < w
            invariant
                x <= w,
                row@.len() == x,
                forall|k: int| 0 <= k < x ==> !#[trigger] row@[k],
            decreases w - x,
        {
            row.push(false);
            x = x + 1;
        }
        visited.push(row);
        y = y + 1;
    }
    let ghost v0 = view2(visited@);
    assert(none_visited(v0, ww, hh)) by {
        assert forall|yy: int| 0 <= yy < hh implies #[trigger] v0[yy].len() == ww by {
            assert(v0[yy] == visited@[yy]@);
        }
        assert forall|yy: int, x: int| 0 <= yy < hh && 0 <= x < ww implies !#[trigger] v0[yy][x] by {
            assert(v0[yy] == visited@[yy]@);
        }
    }
    let mut sizes: Vec<usize> = Vec::new();
    let ghost mut vs: Seq<Seq<Seq<bool>>> = seq![v0];
    let mut i: usize = 0;
    while i < lows.len()
        invariant
            i <= lows@.len(),
            ww == w,
            hh == h,
            ww == heights.spec_width(),
            hh == heights.spec_height(),
            heights.wf(),
            shaped(heights.cells(), ww, hh),
            ww * hh <= usize::MAX,
            forall|k: int| 0 <= k < lows@.len() ==> in_grid(ww, hh, ((#[trigger] lows@[k]).0, lows@[k].1)),
            shaped(view2(visited@), ww, hh),
            vs.len() == i + 1,
            vs[i as int] == view2(visited@),
            basin_run(heights.cells(), ww, hh, lows@.subrange(0, i as int), vs, sizes@),
        decreases lows@.len() - i,
    {
        let (x, y, _) = lows[i];
        assert(in_grid(ww, hh, (lows@[i as int].0, lows@[i as int].1)));
        let ghost before = view2(visited@);
        let n = flood(heights, &mut visited, x, y);
        sizes.push(n);
        proof {
            let vs2 = vs.push(view2(visited@));
            let l2 = lows@.subrange(0, i + 1);
            assert forall|k: int| 0 <= k < sizes@.len() implies {
                &&& shaped(#[trigger] vs2[k + 1], ww, hh)
                &&& is_basin(heights.cells(), vs2[k], ww, hh, (l2[k].0, l2[k].1), newly(vs2[k], vs2[k + 1], ww, hh))
                &&& sizes@[k] + mark_total(vs2[k]) == mark_total(vs2[k + 1])
            } by {
                if k < i {
                    assert(vs2[k] == vs[k] && vs2[k + 1] == vs[k + 1]);
                    assert(l2[k] == lows@.subrange(0, i as int)[k]);
                    assert(shaped(vs[k + 1], ww, hh));
                }
            }
            vs = vs2;
        }
        i = i + 1;
    }
    assert(lows@.subrange(0, i as int) == lows@);
    sizes
}

/// `path` steps from cell to side cell through open cells only.
pub open spec fn is_path(
    c: Seq<Seq<u32>>,
    v: Seq<Seq<bool>>,
    w: int,
    h: int,
    path: Seq<(usize, usize)>,
) -> bool {
    &&& path.len() >= 1
    &&& forall|i: int| 0 <= i < path.len() ==> open_cell(c, v, w, h, #[trigger] path[i])
    &&& forall|i: int| 0 <= i < path.len() - 1 ==> #[trigger] beside(w, h, path[i], path[i + 1])
}

/// `p` is reached from `seed` by a path through open cells.
pub open spec fn reachable(
    c: Seq<Seq<u32>>,
    v: Seq<Seq<bool>>,
    w: int,
    h: int,
    seed: (usize, usize),
    p: (usize, usize),
) -> bool {
    exists|path: Seq<(usize, usize)>| #[trigger] is_path(c, v, w, h, path) && path[0] == seed && path.last() == p
}

proof fn lemma_path_inside(
    c: Seq<Seq<u32>>,
    v: Seq<Seq<bool>>,
    w: int,
    h: int,
    seed: (usize, usize),
    r: Set<(usize, usize)>,
    path: Seq<(usize, usize)>,
    k: int,
)
    requires
        is_basin(c, v, w, h, seed, r),
        is_path(c, v, w, h, path),
        path[0] == seed,
        0 <= k < path.len(),
    ensures
        r.contains(path[k]),
    decreases k,
{
    if k == 0 {
        assert(open_cell(c, v, w, h, path[0]));
    } else {
        lemma_path_inside(c, v, w, h, seed, r, path, k - 1);
        assert(open_cell(c, v, w, h, path[k - 1]));
        let j = k - 1;
        assert(beside(w, h, path[j], path[j + 1]));
        assert(path[j + 1] == path[k]);
        assert(open_cell(c, v, w, h, path[k]));
    }
}

/// The cells that a fill takes are exactly those reached from the seed by
/// steps left, right, up or down through open cells (not visited before,
/// below nine); so the number it returns is the number of such cells.
pub proof fn lemma_basin_is_reachable(
    c: Seq<Seq<u32>>,
    v: Seq<Seq<bool>>,
    w: int,
    h: int,
    seed: (usize, usize),
    r: Set<(usize, usize)>,
)
    requires
        is_basin(c, v, w, h, seed, r),
    ensures
        forall|p: (usize, usize)| r.contains(p) <==> reachable(c, v, w, h, seed, p),
{
    let reach = Set::new(|p: (usize, usize)| reachable(c, v, w, h, seed, p));
    assert(basin_closed(c, v, w, h, seed, reach)) by {
        if open_cell(c, v, w, h, seed) {
            let path = seq![seed];
            assert(is_path(c, v, w, h, path));
        }
        assert forall|p: (usize, usize), q: (usize, usize)|
            #[trigger] reach.contains(p) && in_grid(w, h, p) && #[trigger] beside(w, h, p, q) && open_cell(c, v, w, h, q)
                implies reach.contains(q) by {
            let path = choose|path: Seq<(usize, usize)>| #[trigger] is_path(c, v, w, h, path) && path[0] == seed && path.last() == p;
            let longer = path.push(q);
            assert forall|i: int| 0 <= i < longer.len() implies open_cell(c, v, w, h, #[trigger] longer[i]) by {
                if i < path.len() {
                    assert(longer[i] == path[i]);
                }
            }
            assert forall|i: int| 0 <= i < longer.len() - 1 implies #[trigger] beside(w, h, longer[i], longer[i + 1]) by {
                if i < path.len() - 1 {
                    assert(longer[i] == path[i] && longer[i + 1] == path[i + 1]);
                } else {
                    assert(longer[i] == p);
                }
            }
            assert(is_path(c, v, w, h, longer));
        }
    }
    assert forall|p: (usize, usize)| r.contains(p) <==> reachable(c, v, w, h, seed, p) by {
        if reachable(c, v, w, h, seed, p) {
            let path = choose|path: Seq<(usize, usize)>| #[trigger] is_path(c, v, w, h, path) && path[0] == seed && path.last() == p;
            lemma_path_inside(c, v, w, h, seed, r, path, path.len() - 1);
        }
        if r.contains(p) {
            assert(reach.contains(p));
        }
    }
}

/// On a map of digit heights (none above nine), a cell is open exactly when
/// it is in the grid, not visited and not nine: so the basin of a seed, as
/// `lemma_basin_is_reachable` states it, is the set of cells reached through
/// cells that are not nine, and `lemma_basin_seed_independent` holds of it.
pub proof fn lemma_open_is_not_nine(c: Seq<Seq<u32>>, v: Seq<Seq<bool>>, w: int, h: int)
    requires
        forall|p: (usize, usize)| in_grid(w, h, p) ==> #[trigger] height(c, p) <= 9,
    ensures
        forall|p: (usize, usize)|
            #[trigger] open_cell(c, v, w, h, p) == (in_grid(w, h, p) && !marked(v, p) && height(c, p) != 9),
{
}

} // verus!
