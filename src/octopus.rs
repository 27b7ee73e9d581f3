use vstd::prelude::*;
use std::collections::VecDeque;
use crate::grid::{
    Grid,
    is_neighbor,
    lemma_neighbor_counts,
    neighbors,
    neighbors_upto,
    rectangular,
};

verus! {

/// The value of the cell at `p`.
pub open spec fn at(c: Seq<Seq<u8>>, p: (usize, usize)) -> int {
    c[p.1 as int][p.0 as int] as int
}

/// `p` lies in a grid `w` wide and `h` high.
pub open spec fn in_grid(w: int, h: int, p: (usize, usize)) -> bool {
    p.0 < w && p.1 < h
}

/// `c` holds `h` rows of `w` cells.
pub open spec fn shaped(c: Seq<Seq<u8>>, w: int, h: int) -> bool {
    c.len() == h && forall|y: int| 0 <= y < h ==> #[trigger] c[y].len() == w
}

/// How many of the cells listed in `s` belong to `set`.
pub open spec fn count_in(s: Seq<(usize, usize)>, set: Set<(usize, usize)>) -> nat
    decreases s.len(),
{
    if s.len() == 0 {
        0
    } else {
        count_in(s.drop_last(), set) + if set.contains(s.last()) {
            1nat
        } else {
            0nat
        }
    }
}

/// The cells at zero.
pub open spec fn zeros(c: Seq<Seq<u8>>) -> Set<(usize, usize)> {
    Set::new(
        |p: (usize, usize)|
            (p.1 as int) < c.len() && (p.0 as int) < c[p.1 as int].len() && c[p.1 as int][p.0 as int] == 0,
    )
}

/// The neighbours of `p` that belong to `set`.
pub open spec fn near(w: int, h: int, p: (usize, usize), set: Set<(usize, usize)>) -> nat {
    count_in(neighbors(p.0 as int, p.1 as int, w, h), set)
}

/// A set that holds every cell whose energy after the rise, plus one for each
/// of its neighbours in the set, exceeds nine: a set of cells that could all
/// flash without leaving another cell over the threshold.
pub open spec fn closed_under_flash(o: Seq<Seq<u8>>, w: int, h: int, s: Set<(usize, usize)>) -> bool {
    forall|p: (usize, usize)|
        in_grid(w, h, p) && at(o, p) + 1 + near(w, h, p, s) > 9 ==> #[trigger] s.contains(p)
}

/// `n` is what one pass makes of `o`: the cells that flash are those at zero
/// in `n`; every other cell has risen by one and by one more for each
/// neighbour that flashed, and is at most nine; and the cells that flash lie
/// in every set closed under flashing, so none flashes without being driven to.
pub open spec fn flash_result(o: Seq<Seq<u8>>, n: Seq<Seq<u8>>, w: int, h: int) -> bool {
    &&& shaped(n, w, h)
    &&& forall|p: (usize, usize)|
        in_grid(w, h, p) && at(n, p) != 0 ==> #[trigger] at(n, p) == at(o, p) + 1 + near(w, h, p, zeros(n))
            && at(n, p) <= 9
    &&& forall|s: Set<(usize, usize)>, p: (usize, usize)|
        closed_under_flash(o, w, h, s) && #[trigger] zeros(n).contains(p) ==> #[trigger] s.contains(p)
}

/// The number of cells at zero in `row`.
pub open spec fn row_zeros(row: Seq<u8>) -> nat
    decreases row.len(),
{
    if row.len() == 0 {
        0
    } else {
        row_zeros(row.drop_last()) + if row.last() == 0 {
            1nat
        } else {
            0nat
        }
    }
}

/// The number of cells at zero.
pub open spec fn zero_total(c: Seq<Seq<u8>>) -> nat
    decreases c.len(),
{
    if c.len() == 0 {
        0
    } else {
        zero_total(c.drop_last()) + row_zeros(c.last())
    }
}

/// The number of cells not at zero.
pub open spec fn nonzero_total(c: Seq<Seq<u8>>) -> nat
    decreases c.len(),
{
    if c.len() == 0 {
        0
    } else {
        nonzero_total(c.drop_last()) + (c.last().len() - row_zeros(c.last())) as nat
    }
}

proof fn lemma_row_zeros_bound(row: Seq<u8>)
    ensures
        row_zeros(row) <= row.len(),
    decreases row.len(),
{
    if row.len() > 0 {
        lemma_row_zeros_bound(row.drop_last());
    }
}

proof fn lemma_row_zeros_update(row: Seq<u8>, x: int, v: u8)
    requires
        0 <= x < row.len(),
    ensures
        row_zeros(row.update(x, v)) + (if row[x] == 0 {
            1int
        } else {
            0int
        }) == row_zeros(row) + (if v == 0 {
            1int
        } else {
            0int
        }),
    decreases row.len(),
{
    let r2 = row.update(x, v);
    if x == row.len() - 1 {
        assert(r2.drop_last() == row.drop_last());
    } else {
        assert(r2.drop_last() == row.drop_last().update(x, v));
        lemma_row_zeros_update(row.drop_last(), x, v);
    }
}

/// Setting one cell changes the counts of zero and other cells by what the
/// old and the new value are.
proof fn lemma_totals_update(c: Seq<Seq<u8>>, x: int, y: int, v: u8)
    requires
        0 <= y < c.len(),
        0 <= x < c[y].len(),
    ensures
        zero_total(c.update(y, c[y].update(x, v))) + (if c[y][x] == 0 {
            1int
        } else {
            0int
        }) == zero_total(c) + (if v == 0 {
            1int
        } else {
            0int
        }),
        nonzero_total(c.update(y, c[y].update(x, v))) + (if v == 0 {
            1int
        } else {
            0int
        }) == nonzero_total(c) + (if c[y][x] == 0 {
            1int
        } else {
            0int
        }),
    decreases c.len(),
{
    let c2 = c.update(y, c[y].update(x, v));
    lemma_row_zeros_update(c[y], x, v);
    lemma_row_zeros_bound(c[y]);
    lemma_row_zeros_bound(c[y].update(x, v));
    if y == c.len() - 1 {
        assert(c2.drop_last() == c.drop_last());
    } else {
        assert(c2.drop_last() == c.drop_last().update(y, c[y].update(x, v)));
        lemma_totals_update(c.drop_last(), x, y, v);
    }
}

/// Adding a cell to the set raises the count by one where the cell is listed
/// (once), and leaves it where it is not.
proof fn lemma_count_insert(s: Seq<(usize, usize)>, set: Set<(usize, usize)>, q: (usize, usize))
    requires
        s.no_duplicates(),
        !set.contains(q),
    ensures
        count_in(s, set.insert(q)) == count_in(s, set) + if s.contains(q) {
            1nat
        } else {
            0nat
        },
    decreases s.len(),
{
    if s.len() > 0 {
        let pre = s.drop_last();
        assert(pre.no_duplicates()) by {
            assert forall|i: int, j: int| 0 <= i < pre.len() && 0 <= j < pre.len() && i != j implies pre[i] != pre[j] by {
                assert(pre[i] == s[i] && pre[j] == s[j]);
            }
        }
        lemma_count_insert(pre, set, q);
        if s.last() == q {
            assert(!pre.contains(q)) by {
                if pre.contains(q) {
                    let i = choose|i: int| 0 <= i < pre.len() && pre[i] == q;
                    assert(s[i] == s[s.len() - 1]);
                }
            }
        } else {
            assert(s.contains(q) == pre.contains(q)) by {
                if s.contains(q) {
                    let i = choose|i: int| 0 <= i < s.len() && s[i] == q;
                    assert(pre[i] == q);
                }
                if pre.contains(q) {
                    let i = choose|i: int| 0 <= i < pre.len() && pre[i] == q;
                    assert(s[i] == q);
                }
            }
        }
    }
}

/// A larger set counts at least as many.
proof fn lemma_count_subset(s: Seq<(usize, usize)>, a: Set<(usize, usize)>, b: Set<(usize, usize)>)
    requires
        forall|p: (usize, usize)| a.contains(p) ==> b.contains(p),
    ensures
        count_in(s, a) <= count_in(s, b),
    decreases s.len(),
{
    if s.len() > 0 {
        lemma_count_subset(s.drop_last(), a, b);
    }
}

/// Sets that agree on the listed cells count the same.
proof fn lemma_count_agree(s: Seq<(usize, usize)>, a: Set<(usize, usize)>, b: Set<(usize, usize)>)
    requires
        forall|i: int| 0 <= i < s.len() ==> (a.contains(#[trigger] s[i]) == b.contains(s[i])),
    ensures
        count_in(s, a) == count_in(s, b),
    decreases s.len(),
{
    if s.len() > 0 {
        let pre = s.drop_last();
        assert forall|i: int| 0 <= i < pre.len() implies (a.contains(#[trigger] pre[i]) == b.contains(pre[i])) by {
            assert(pre[i] == s[i]);
        }
        lemma_count_agree(pre, a, b);
        assert(s.last() == s[s.len() - 1]);
    }
}

proof fn lemma_count_bound(s: Seq<(usize, usize)>, set: Set<(usize, usize)>)
    ensures
        count_in(s, set) <= s.len(),
    decreases s.len(),
{
    if s.len() > 0 {
        lemma_count_bound(s.drop_last(), set);
    }
}

proof fn lemma_neighbors_len(x: int, y: int, w: int, h: int, k: nat)
    ensures
        neighbors_upto(x, y, w, h, k).len() <= k,
    decreases k,
{
    if k > 0 {
        lemma_neighbors_len(x, y, w, h, (k - 1) as nat);
    }
}

/// The neighbour relation goes both ways, and a cell is listed among the
/// neighbours of another at most once.
proof fn lemma_neighbor_facts(w: int, h: int, p: (usize, usize), q: (usize, usize))
    requires
        in_grid(w, h, p),
        in_grid(w, h, q),
        w <= usize::MAX,
        h <= usize::MAX,
    ensures
        neighbors(p.0 as int, p.1 as int, w, h).contains(q) == neighbors(q.0 as int, q.1 as int, w, h).contains(p),
        neighbors(p.0 as int, p.1 as int, w, h).no_duplicates(),
        !neighbors(p.0 as int, p.1 as int, w, h).contains(p),
        neighbors(p.0 as int, p.1 as int, w, h).len() <= 9,
{
    lemma_neighbor_counts(p.0, p.1, w as usize, h as usize);
    lemma_neighbor_counts(q.0, q.1, w as usize, h as usize);
    lemma_neighbors_len(p.0 as int, p.1 as int, w, h, 9);
    assert(is_neighbor(p.0 as int, p.1 as int, w, h, q) == is_neighbor(q.0 as int, q.1 as int, w, h, p));
}

/// A pass is deterministic: from the same cells, any two grids that meet the
/// description of one pass are the same grid.
pub proof fn lemma_flash_deterministic(o: Seq<Seq<u8>>, n1: Seq<Seq<u8>>, n2: Seq<Seq<u8>>, w: int, h: int)
    requires
        0 <= w <= usize::MAX,
        0 <= h <= usize::MAX,
        flash_result(o, n1, w, h),
        flash_result(o, n2, w, h),
    ensures
        n1 == n2,
{
    lemma_flash_closed(o, n1, w, h);
    lemma_flash_closed(o, n2, w, h);
    assert(zeros(n1) =~= zeros(n2)) by {
        assert forall|p: (usize, usize)| zeros(n1).contains(p) implies zeros(n2).contains(p) by {
            assert(closed_under_flash(o, w, h, zeros(n2)));
        }
        assert forall|p: (usize, usize)| zeros(n2).contains(p) implies zeros(n1).contains(p) by {
            assert(closed_under_flash(o, w, h, zeros(n1)));
        }
    }
    assert forall|y: int| 0 <= y < h implies n1[y] =~= n2[y] by {
        assert forall|x: int| 0 <= x < w implies n1[y][x] == n2[y][x] by {
            let p = (x as usize, y as usize);
            assert(in_grid(w, h, p));
            if n1[y][x] == 0 {
                assert(zeros(n1).contains(p));
            } else if n2[y][x] == 0 {
                assert(zeros(n2).contains(p));
            } else {
                assert(at(n1, p) == at(o, p) + 1 + near(w, h, p, zeros(n1)));
                assert(at(n2, p) == at(o, p) + 1 + near(w, h, p, zeros(n2)));
            }
        }
    }
    assert(n1 =~= n2);
}

/// The cells that flash in a pass form a set closed under flashing.
pub proof fn lemma_flash_closed(o: Seq<Seq<u8>>, n: Seq<Seq<u8>>, w: int, h: int)
    requires
        flash_result(o, n, w, h),
    ensures
        closed_under_flash(o, w, h, zeros(n)),
{
    assert forall|p: (usize, usize)| in_grid(w, h, p) && at(o, p) + 1 + near(w, h, p, zeros(n)) > 9 implies #[trigger] zeros(
        n,
    ).contains(p) by {
        if !zeros(n).contains(p) {
            assert(at(n, p) != 0);
        }
    }
}

/// Every cell rises by one.
fn raise_all(grid: &mut Grid<u8>, w: usize, h: usize)
    requires
        old(grid).wf(),
        shaped(old(grid).cells(), w as int, h as int),
        forall|p: (usize, usize)| in_grid(w as int, h as int, p) ==> #[trigger] at(old(grid).cells(), p) <= 9,
    ensures
        final(grid).wf(),
        final(grid).spec_width() == old(grid).spec_width(),
        final(grid).spec_height() == old(grid).spec_height(),
        shaped(final(grid).cells(), w as int, h as int),
        forall|p: (usize, usize)|
            in_grid(w as int, h as int, p) ==> #[trigger] at(final(grid).cells(), p) == at(old(grid).cells(), p) + 1,
{
    let ghost o = grid.cells();
    let mut y: usize = 0;
    while y < h
        invariant
            y <= h,
            grid.wf(),
            grid.spec_width() == old(grid).spec_width(),
            grid.spec_height() == old(grid).spec_height(),
            shaped(grid.cells(), w as int, h as int),
            o == old(grid).cells(),
            forall|p: (usize, usize)| in_grid(w as int, h as int, p) ==> #[trigger] at(o, p) <= 9,
            forall|p: (usize, usize)|
                in_grid(w as int, h as int, p) ==> #[trigger] at(grid.cells(), p) == if p.1 < y {
                    at(o, p) + 1
                } else {
                    at(o, p)
                },
        decreases h - y,
    {
        let mut x: usize = 0;
        while x < w
            invariant
                x <= w,
                y < h,
                grid.wf(),
                grid.spec_width() == old(grid).spec_width(),
                grid.spec_height() == old(grid).spec_height(),
                shaped(grid.cells(), w as int, h as int),
                o == old(grid).cells(),
                forall|p: (usize, usize)| in_grid(w as int, h as int, p) ==> #[trigger] at(o, p) <= 9,
                forall|p: (usize, usize)|
                    in_grid(w as int, h as int, p) ==> #[trigger] at(grid.cells(), p) == if p.1 < y || (p.1 == y
                        && p.0 < x) {
                        at(o, p) + 1
                    } else {
                        at(o, p)
                    },
            decreases w - x,
        {
            let ghost before = grid.cells();
            assert(at(before, (x, y)) == at(o, (x, y)));
            let v = grid.index_mut(x, y);
            *v = *v + 1;
            assert forall|p: (usize, usize)| in_grid(w as int, h as int, p) implies #[trigger] at(grid.cells(), p)
                == if p.1 < y || (p.1 == y && p.0 < x + 1) {
                at(o, p) + 1
            } else {
                at(o, p)
            } by {
                assert(at(before, p) == at(o, p) || at(before, p) == at(o, p) + 1);
            }
            x = x + 1;
        }
        y = y + 1;
    }
}

/// The cells above nine, in row-major order.
fn overloaded(grid: &Grid<u8>, w: usize, h: usize) -> (q: VecDeque<(usize, usize)>)
    requires
        shaped(grid.cells(), w as int, h as int),
    ensures
        forall|i: int| 0 <= i < q@.len() ==> in_grid(w as int, h as int, #[trigger] q@[i]) && at(grid.cells(), q@[i]) > 9,
        forall|p: (usize, usize)| in_grid(w as int, h as int, p) && #[trigger] at(grid.cells(), p) > 9 ==> q@.contains(p),
{
    let mut q: VecDeque<(usize, usize)> = VecDeque::new();
    let mut y: usize = 0;
    while y < h
        invariant
            y <= h,
            shaped(grid.cells(), w as int, h as int),
            forall|i: int| 0 <= i < q@.len() ==> in_grid(w as int, h as int, #[trigger] q@[i]) && at(grid.cells(), q@[i]) > 9,
            forall|p: (usize, usize)|
                in_grid(w as int, h as int, p) && p.1 < y && #[trigger] at(grid.cells(), p) > 9 ==> q@.contains(p),
        decreases h - y,
    {
        let mut x: usize = 0;
        while x < w
            invariant
                x <= w,
                y < h,
                shaped(grid.cells(), w as int, h as int),
                forall|i: int| 0 <= i < q@.len() ==> in_grid(w as int, h as int, #[trigger] q@[i]) && at(grid.cells(), q@[i]) > 9,
                forall|p: (usize, usize)|
                    in_grid(w as int, h as int, p) && (p.1 < y || (p.1 == y && p.0 < x)) && #[trigger] at(grid.cells(), p) > 9
                        ==> q@.contains(p),
            decreases w - x,
        {
            if *grid.index(x, y) > 9 {
                let ghost before = q@;
                q.push_back((x, y));
                assert(q@[q@.len() - 1] == (x, y));
                assert forall|p: (usize, usize)| before.contains(p) implies q@.contains(p) by {
                    let i = choose|i: int| 0 <= i < before.len() && before[i] == p;
                    assert(q@[i] == p);
                }
            }
            x = x + 1;
        }
        y = y + 1;
    }
    q
}

/// The cell at `(x, y)` flashes: it drops to zero, and each neighbour not at
/// zero rises by one and joins the queue where it passes nine.
fn flash_at(grid: &mut Grid<u8>, w: usize, h: usize, x: usize, y: usize, working: &mut VecDeque<(usize, usize)>)
    requires
        old(grid).wf(),
        old(grid).spec_width() == w,
        old(grid).spec_height() == h,
        shaped(old(grid).cells(), w as int, h as int),
        in_grid(w as int, h as int, (x, y)),
        at(old(grid).cells(), (x, y)) != 0,
        forall|p: (usize, usize)| in_grid(w as int, h as int, p) ==> #[trigger] at(old(grid).cells(), p) <= 20,
    ensures
        final(grid).wf(),
        final(grid).spec_width() == w,
        final(grid).spec_height() == h,
        shaped(final(grid).cells(), w as int, h as int),
        zeros(final(grid).cells()) == zeros(old(grid).cells()).insert((x, y)),
        forall|p: (usize, usize)|
            in_grid(w as int, h as int, p) ==> #[trigger] at(final(grid).cells(), p) == if p == (x, y) {
                0
            } else if at(old(grid).cells(), p) != 0 && neighbors(x as int, y as int, w as int, h as int).contains(p) {
                at(old(grid).cells(), p) + 1
            } else {
                at(old(grid).cells(), p)
            },
        final(working)@.len() >= old(working)@.len(),
        final(working)@.subrange(0, old(working)@.len() as int) == old(working)@,
        forall|i: int|
            old(working)@.len() <= i < final(working)@.len() ==> in_grid(w as int, h as int, #[trigger] final(working)@[i])
                && at(final(grid).cells(), final(working)@[i]) > 9 && at(old(grid).cells(), final(working)@[i]) != 0
                && neighbors(x as int, y as int, w as int, h as int).contains(final(working)@[i]),
        forall|p: (usize, usize)|
            in_grid(w as int, h as int, p) && neighbors(x as int, y as int, w as int, h as int).contains(p) && at(
                old(grid).cells(),
                p,
            ) != 0 && #[trigger] at(final(grid).cells(), p) > 9 ==> final(working)@.contains(p),
        zero_total(final(grid).cells()) == zero_total(old(grid).cells()) + 1,
        nonzero_total(final(grid).cells()) + 1 == nonzero_total(old(grid).cells()),
{
    let ghost base = grid.cells();
    let ghost w0 = working@;
    let ghost q = (x, y);
    let ghost nb = neighbors(x as int, y as int, w as int, h as int);
    proof {
        lemma_neighbor_facts(w as int, h as int, q, q);
        lemma_totals_update(base, x as int, y as int, 0);
    }
    *grid.index_mut(x, y) = 0;
    let ghost c1 = grid.cells();
    assert(zeros(c1) =~= zeros(base).insert(q));
    assert forall|p: (usize, usize)| in_grid(w as int, h as int, p) implies #[trigger] at(c1, p) <= 20 by {
        if p != q {
            assert(at(c1, p) == at(base, p));
        }
    }
    proof {
        lemma_neighbor_counts(x, y, w, h);
        assert forall|i: int| 0 <= i < nb.len() implies in_grid(w as int, h as int, #[trigger] nb[i]) by {
            assert(nb.contains(nb[i]));
            assert(is_neighbor(x as int, y as int, w as int, h as int, nb[i]));
        }
    }
    let nbrs = grid.iter_neighbors(x, y);
    let mut k: usize = 0;
    while k < nbrs.len()
        invariant
            k <= nbrs@.len(),
            nbrs@ == nb,
            nb.no_duplicates(),
            !nb.contains(q),
            forall|i: int| 0 <= i < nb.len() ==> in_grid(w as int, h as int, #[trigger] nb[i]),
            grid.wf(),
            grid.spec_width() == w,
            grid.spec_height() == h,
            shaped(grid.cells(), w as int, h as int),
            shaped(c1, w as int, h as int),
            zeros(grid.cells()) == zeros(c1),
            zero_total(grid.cells()) == zero_total(c1),
            nonzero_total(grid.cells()) == nonzero_total(c1),
            forall|p: (usize, usize)| in_grid(w as int, h as int, p) ==> #[trigger] at(c1, p) <= 20,
            forall|p: (usize, usize)|
                in_grid(w as int, h as int, p) ==> #[trigger] at(grid.cells(), p) == if at(c1, p) != 0
                    && nb.subrange(0, k as int).contains(p) {
                    at(c1, p) + 1
                } else {
                    at(c1, p)
                },
            working@.len() >= w0.len(),
            working@.subrange(0, w0.len() as int) == w0,
            forall|i: int|
                w0.len() <= i < working@.len() ==> in_grid(w as int, h as int, #[trigger] working@[i]) && at(
                    grid.cells(),
                    working@[i],
                ) > 9 && at(c1, working@[i]) != 0 && nb.contains(working@[i]),
            forall|p: (usize, usize)|
                in_grid(w as int, h as int, p) && nb.subrange(0, k as int).contains(p) && at(c1, p) != 0
                    && #[trigger] at(grid.cells(), p) > 9 ==> working@.contains(p),
        decreases nbrs@.len() - k,
    {
        let (nx, ny) = nbrs[k];
        let ghost p = (nx, ny);
        let ghost before = grid.cells();
        let ghost wb = working@;
        assert(in_grid(w as int, h as int, nb[k as int]));
        assert(!nb.subrange(0, k as int).contains(p)) by {
            if nb.subrange(0, k as int).contains(p) {
                let pre = nb.subrange(0, k as int);
                let i = choose|i: int| 0 <= i < pre.len() && pre[i] == p;
                assert(nb[i] == nb[k as int]);
            }
        }
        assert(at(before, p) == at(c1, p));
        let cur = *grid.index(nx, ny);
        if cur != 0 {
            let bumped = cur + 1;
            *grid.index_mut(nx, ny) = bumped;
            proof {
                lemma_totals_update(before, nx as int, ny as int, bumped);
                assert(grid.cells() == before.update(ny as int, before[ny as int].update(nx as int, bumped)));
            }
            assert(zeros(grid.cells()) =~= zeros(before));
            if bumped > 9 {
                working.push_back((nx, ny));
            }
        }
        assert forall|r: (usize, usize)| in_grid(w as int, h as int, r) && r != p implies #[trigger] at(grid.cells(), r)
            == at(before, r) by {
            if r.1 == ny {
                assert(grid.cells()[r.1 as int][r.0 as int] == before[r.1 as int][r.0 as int]);
            }
        }
        let ghost pre0 = nb.subrange(0, k as int);
        let ghost pre1 = nb.subrange(0, k + 1);
        assert(pre1 =~= pre0.push(p));
        assert forall|r: (usize, usize)| in_grid(w as int, h as int, r) implies #[trigger] at(grid.cells(), r) == if at(
            c1,
            r,
        ) != 0 && nb.subrange(0, k + 1).contains(r) {
            at(c1, r) + 1
        } else {
            at(c1, r)
        } by {
            if r != p {
                assert(nb.subrange(0, k + 1).contains(r) == nb.subrange(0, k as int).contains(r)) by {
                    if nb.subrange(0, k + 1).contains(r) {
                        let i = choose|i: int| 0 <= i < pre1.len() && pre1[i] == r;
                        assert(pre0[i] == r);
                    }
                    if nb.subrange(0, k as int).contains(r) {
                        let i = choose|i: int| 0 <= i < pre0.len() && pre0[i] == r;
                        assert(pre1[i] == r);
                    }
                }
            } else {
                assert(nb.subrange(0, k + 1)[k as int] == p);
            }
        }
        assert forall|r: (usize, usize)|
            in_grid(w as int, h as int, r) && nb.subrange(0, k + 1).contains(r) && at(c1, r) != 0
                && #[trigger] at(grid.cells(), r) > 9 implies working@.contains(r) by {
            if r == p {
                assert(working@[working@.len() - 1] == p);
            } else {
                let i = choose|i: int| 0 <= i < pre1.len() && pre1[i] == r;
                assert(pre0[i] == r);
                assert(wb.contains(r));
                let j = choose|j: int| 0 <= j < wb.len() && wb[j] == r;
                assert(working@[j] == r);
            }
        }
        assert(working@.subrange(0, w0.len() as int) =~= w0) by {
            assert(wb.subrange(0, w0.len() as int) == w0);
        }
        k = k + 1;
    }
    assert(nb.subrange(0, nb.len() as int) == nb);
}

proof fn lemma_totals_sum(c: Seq<Seq<u8>>, w: int)
    requires
        w >= 0,
        forall|y: int| 0 <= y < c.len() ==> #[trigger] c[y].len() == w,
    ensures
        zero_total(c) + nonzero_total(c) == c.len() * w,
    decreases c.len(),
{
    if c.len() > 0 {
        let pre = c.drop_last();
        assert forall|y: int| 0 <= y < pre.len() implies #[trigger] pre[y].len() == w by {
            assert(pre[y] == c[y]);
        }
        lemma_totals_sum(pre, w);
        lemma_row_zeros_bound(c.last());
        assert(c.last().len() == w);
        assert((c.len() - 1) * w + w == c.len() * w) by (nonlinear_arith);
    }
}

proof fn lemma_no_zeros(c: Seq<Seq<u8>>)
    requires
        forall|y: int, x: int| 0 <= y < c.len() && 0 <= x < c[y].len() ==> #[trigger] c[y][x] != 0,
    ensures
        zero_total(c) == 0,
    decreases c.len(),
{
    if c.len() > 0 {
        let pre = c.drop_last();
        assert forall|y: int, x: int| 0 <= y < pre.len() && 0 <= x < pre[y].len() implies #[trigger] pre[y][x] != 0 by {
            assert(pre[y] == c[y]);
        }
        lemma_no_zeros(pre);
        lemma_row_no_zeros(c.last());
    }
}

proof fn lemma_row_no_zeros(r: Seq<u8>)
    requires
        forall|x: int| 0 <= x < r.len() ==> #[trigger] r[x] != 0,
    ensures
        row_zeros(r) == 0,
    decreases r.len(),
{
    if r.len() > 0 {
        let pre = r.drop_last();
        assert forall|x: int| 0 <= x < pre.len() implies #[trigger] pre[x] != 0 by {
            assert(pre[x] == r[x]);
        }
        lemma_row_no_zeros(pre);
    }
}

proof fn lemma_count_empty(s: Seq<(usize, usize)>)
    ensures
        count_in(s, Set::empty()) == 0,
    decreases s.len(),
{
    if s.len() > 0 {
        lemma_count_empty(s.drop_last());
    }
}

/// One pass over the octopus grid: every energy level rises by one; then each
/// octopus above nine flashes, dropping to zero and raising each neighbour that
/// has not flashed by one, which may make it flash in turn. Every octopus
/// flashes at most once. The result is how many flashed.
pub fn step(grid: &mut Grid<u8>) -> (r: usize)
    requires
        old(grid).wf(),
        rectangular(old(grid).cells()),
        old(grid).spec_width() * old(grid).spec_height() <= usize::MAX,
        forall|p: (usize, usize)|
            in_grid(old(grid).spec_width() as int, old(grid).spec_height() as int, p) ==> #[trigger] at(
                old(grid).cells(),
                p,
            ) <= 9,
    ensures
        final(grid).wf(),
        final(grid).spec_width() == old(grid).spec_width(),
        final(grid).spec_height() == old(grid).spec_height(),
        flash_result(
            old(grid).cells(),
            final(grid).cells(),
            old(grid).spec_width() as int,
            old(grid).spec_height() as int,
        ),
        r == zero_total(final(grid).cells()),
{
    let (w, h) = grid.size();
    let ghost o = grid.cells();
    let ghost ww = w as int;
    let ghost hh = h as int;
    proof {
        grid.lemma_wf_size();
        assert forall|y: int| 0 <= y < hh implies #[trigger] o[y].len() == ww by {
            assert(o[y].len() == o[0].len());
        }
        assert(shaped(o, ww, hh));
    }
    raise_all(grid, w, h);
    let mut working = overloaded(grid, w, h);
    proof {
        let c = grid.cells();
        assert forall|y: int, x: int| 0 <= y < c.len() && 0 <= x < c[y].len() implies #[trigger] c[y][x] != 0 by {
            assert(at(c, (x as usize, y as usize)) == at(o, (x as usize, y as usize)) + 1);
        }
        lemma_no_zeros(c);
        lemma_totals_sum(c, ww);
        assert(zeros(c) =~= Set::empty()) by {
            assert forall|p: (usize, usize)| !zeros(c).contains(p) by {
                if zeros(c).contains(p) {
                    assert(c[p.1 as int][p.0 as int] != 0);
                }
            }
        }
        assert forall|p: (usize, usize)| in_grid(ww, hh, p) implies near(ww, hh, p, zeros(c)) == 0 by {
            lemma_count_empty(neighbors(p.0 as int, p.1 as int, ww, hh));
        }
    }
    let mut count: usize = 0;
    while working.len() > 0
        invariant
            grid.wf(),
            grid.spec_width() == w,
            grid.spec_height() == h,
            ww == w,
            hh == h,
            w * h <= usize::MAX,
            shaped(grid.cells(), ww, hh),
            shaped(o, ww, hh),
            forall|p: (usize, usize)| in_grid(ww, hh, p) ==> #[trigger] at(o, p) <= 9,
            forall|p: (usize, usize)|
                in_grid(ww, hh, p) && at(grid.cells(), p) != 0 ==> #[trigger] at(grid.cells(), p) == at(o, p) + 1
                    + near(ww, hh, p, zeros(grid.cells())),
            forall|p: (usize, usize)| in_grid(ww, hh, p) && #[trigger] at(grid.cells(), p) > 9 ==> working@.contains(p),
            forall|i: int|
                0 <= i < working@.len() ==> in_grid(ww, hh, #[trigger] working@[i]) && (at(grid.cells(), working@[i])
                    == 0 || at(o, working@[i]) + 1 + near(ww, hh, working@[i], zeros(grid.cells())) > 9),
            forall|s: Set<(usize, usize)>, p: (usize, usize)|
                closed_under_flash(o, ww, hh, s) && #[trigger] zeros(grid.cells()).contains(p) ==> #[trigger] s.contains(p),
            count == zero_total(grid.cells()),
            zero_total(grid.cells()) + nonzero_total(grid.cells()) == ww * hh,
        decreases nonzero_total(grid.cells()), working@.len(),
    {
        let ghost base = grid.cells();
        let ghost q0 = working@;
        let (x, y) = match working.pop_front() {
            Some(p) => p,
            None => {
                return count;
            },
        };
        let ghost q = (x, y);
        assert(q0[0] == q);
        assert(in_grid(ww, hh, q));
        assert forall|p: (usize, usize)| q0.contains(p) && p != q implies working@.contains(p) by {
            let i = choose|i: int| 0 <= i < q0.len() && q0[i] == p;
            assert(working@[i - 1] == p);
        }
        if *grid.index(x, y) == 0 {
            assert(at(base, q) == 0);
            continue;
        }
        let ghost z0 = zeros(base);
        proof {
            lemma_neighbor_facts(ww, hh, q, q);
            lemma_count_bound(neighbors(x as int, y as int, ww, hh), z0);
            assert forall|p: (usize, usize)| in_grid(ww, hh, p) implies #[trigger] at(base, p) <= 20 by {
                if at(base, p) != 0 {
                    lemma_neighbor_facts(ww, hh, p, p);
                    lemma_count_bound(neighbors(p.0 as int, p.1 as int, ww, hh), z0);
                }
            }
        }
        let ghost wk = working@;
        flash_at(grid, w, h, x, y, &mut working);
        let ghost fin = grid.cells();
        let ghost z1 = zeros(fin);
        proof {
            assert(!z0.contains(q));
            assert(z1 == z0.insert(q));
            lemma_totals_sum(fin, ww);
            assert(at(o, q) + 1 + near(ww, hh, q, z0) > 9);
            assert forall|p: (usize, usize)| in_grid(ww, hh, p) && at(fin, p) != 0 implies #[trigger] at(fin, p) == at(o, p)
                + 1 + near(ww, hh, p, z1) by {
                lemma_neighbor_facts(ww, hh, p, q);
                lemma_count_insert(neighbors(p.0 as int, p.1 as int, ww, hh), z0, q);
                assert(p != q);
                assert(at(base, p) != 0) by {
                    if at(base, p) == 0 {
                        assert(z0.contains(p));
                    }
                }
            }
            assert forall|p: (usize, usize)| in_grid(ww, hh, p) && #[trigger] at(fin, p) > 9 implies working@.contains(p) by {
                if !(at(base, p) != 0 && neighbors(x as int, y as int, ww, hh).contains(p)) {
                    assert(at(fin, p) == at(base, p));
                    assert(p != q);
                    assert(wk.contains(p));
                    let i = choose|i: int| 0 <= i < wk.len() && wk[i] == p;
                    assert(working@.subrange(0, wk.len() as int)[i] == p);
                }
            }
            assert forall|i: int| 0 <= i < working@.len() implies in_grid(ww, hh, #[trigger] working@[i]) && (at(
                fin,
                working@[i],
            ) == 0 || at(o, working@[i]) + 1 + near(ww, hh, working@[i], z1) > 9) by {
                let e = working@[i];
                if i < wk.len() {
                    assert(working@.subrange(0, wk.len() as int)[i] == e);
                    assert(wk[i] == q0[i + 1]);
                    if at(base, e) == 0 {
                        assert(z0.contains(e));
                        assert(z1.contains(e));
                    } else {
                        lemma_count_subset(neighbors(e.0 as int, e.1 as int, ww, hh), z0, z1);
                    }
                }
            }
            assert forall|s: Set<(usize, usize)>, p: (usize, usize)|
                closed_under_flash(o, ww, hh, s) && #[trigger] z1.contains(p) implies #[trigger] s.contains(p) by {
                if p == q {
                    assert forall|r: (usize, usize)| z0.contains(r) implies s.contains(r) by {}
                    lemma_count_subset(neighbors(x as int, y as int, ww, hh), z0, s);
                } else {
                    assert(z0.contains(p));
                }
            }
        }
        count = count + 1;
    }
    proof {
        let n = grid.cells();
        assert forall|p: (usize, usize)| in_grid(ww, hh, p) && at(n, p) != 0 implies #[trigger] at(n, p) == at(o, p) + 1
            + near(ww, hh, p, zeros(n)) && at(n, p) <= 9 by {
            if at(n, p) > 9 {
                assert(working@.contains(p));
            }
        }
    }
    count
}

/// After a pass every row still has the width, and no cell exceeds nine.
proof fn lemma_after_pass(o: Seq<Seq<u8>>, n: Seq<Seq<u8>>, w: int, h: int)
    requires
        flash_result(o, n, w, h),
    ensures
        rectangular(n),
        forall|p: (usize, usize)| in_grid(w, h, p) ==> #[trigger] at(n, p) <= 9,
{
    assert forall|y: int| 0 <= y < n.len() implies #[trigger] n[y].len() == n[0].len() by {
        assert(n[y].len() == w);
        assert(n[0].len() == w);
    }
    assert forall|p: (usize, usize)| in_grid(w, h, p) implies #[trigger] at(n, p) <= 9 by {
        if at(n, p) != 0 {
        }
    }
}

/// `gs` is a run of passes: each grid is what one pass makes of the one before.
pub open spec fn pass_run(gs: Seq<Seq<Seq<u8>>>, w: int, h: int) -> bool {
    &&& gs.len() >= 1
    &&& forall|i: int| 0 <= i < gs.len() - 1 ==> #[trigger] flash_result(gs[i], gs[i + 1], w, h)
}

/// `gs` is the run of passes from `o` to `n` that the search for a pass where
/// every octopus flashes makes: it stops after `r`'s pass, or after `limit`
/// passes where `r` is `None`.
pub open spec fn full_flash_run(
    gs: Seq<Seq<Seq<u8>>>,
    o: Seq<Seq<u8>>,
    n: Seq<Seq<u8>>,
    w: int,
    h: int,
    r: Option<usize>,
    limit: int,
) -> bool {
    &&& pass_run(gs, w, h)
    &&& gs[0] == o
    &&& gs.last() == n
    &&& match r {
        Some(k) => {
            &&& 1 <= k <= limit
            &&& gs.len() == k + 1
            &&& zero_total(gs[k as int]) == w * h
            &&& forall|i: int| 1 <= i < k ==> #[trigger] zero_total(gs[i]) != w * h
        },
        None => {
            &&& gs.len() == limit + 1
            &&& forall|i: int| 1 <= i <= limit ==> #[trigger] zero_total(gs[i]) != w * h
        },
    }
}

/// Runs passes until one makes every octopus flash, at most `limit` of them.
/// Returns the number of that pass, counting from one, or `None` where none
/// of the `limit` passes does.
pub fn first_full_flash(grid: &mut Grid<u8>, limit: usize) -> (r: Option<usize>)
    requires
        old(grid).wf(),
        rectangular(old(grid).cells()),
        old(grid).spec_width() * old(grid).spec_height() <= usize::MAX,
        forall|p: (usize, usize)|
            in_grid(old(grid).spec_width() as int, old(grid).spec_height() as int, p) ==> #[trigger] at(
                old(grid).cells(),
                p,
            ) <= 9,
    ensures
        final(grid).wf(),
        final(grid).spec_width() == old(grid).spec_width(),
        final(grid).spec_height() == old(grid).spec_height(),
        exists|gs: Seq<Seq<Seq<u8>>>|
            #[trigger] full_flash_run(
                gs,
                old(grid).cells(),
                final(grid).cells(),
                old(grid).spec_width() as int,
                old(grid).spec_height() as int,
                r,
                limit as int,
            ),
{
    let (w, h) = grid.size();
    let all = w * h;
    let ghost ww = w as int;
    let ghost hh = h as int;
    let ghost mut gs: Seq<Seq<Seq<u8>>> = seq![grid.cells()];
    let mut k: usize = 0;
    while k < limit
        invariant
            k <= limit,
            grid.wf(),
            grid.spec_width() == w,
            grid.spec_height() == h,
            ww == w,
            hh == h,
            w == old(grid).spec_width(),
            h == old(grid).spec_height(),
            all == ww * hh,
            w * h <= usize::MAX,
            rectangular(grid.cells()),
            forall|p: (usize, usize)| in_grid(ww, hh, p) ==> #[trigger] at(grid.cells(), p) <= 9,
            pass_run(gs, ww, hh),
            gs.len() == k + 1,
            gs[0] == old(grid).cells(),
            gs.last() == grid.cells(),
            forall|i: int| 1 <= i <= k ==> #[trigger] zero_total(gs[i]) != ww * hh,
        decreases limit - k,
    {
        let ghost before = grid.cells();
        let n = step(grid);
        proof {
            lemma_after_pass(before, grid.cells(), ww, hh);
            let g2 = gs.push(grid.cells());
            assert forall|i: int| 0 <= i < g2.len() - 1 implies #[trigger] flash_result(g2[i], g2[i + 1], ww, hh) by {
                if i < gs.len() - 1 {
                    assert(g2[i] == gs[i] && g2[i + 1] == gs[i + 1]);
                } else {
                    assert(g2[i] == before);
                }
            }
            assert forall|i: int| 1 <= i < g2.len() - 1 implies #[trigger] zero_total(g2[i]) != ww * hh by {
                assert(g2[i] == gs[i]);
            }
            gs = g2;
        }
        k = k + 1;
        if n == all {
            assert(full_flash_run(gs, old(grid).cells(), grid.cells(), ww, hh, Some(k), limit as int));
            return Some(k);
        }
    }
    assert(full_flash_run(gs, old(grid).cells(), grid.cells(), ww, hh, None, limit as int));
    None
}

/// A quiet grid, every cell at most eight, flashes nothing in a pass: no
/// cell is at zero afterwards and every cell has risen by exactly one. A second
/// pass over the result is then a different pass, since the cells have risen.
pub proof fn lemma_quiescent_pass(o: Seq<Seq<u8>>, n: Seq<Seq<u8>>, w: int, h: int)
    requires
        0 <= w <= usize::MAX,
        0 <= h <= usize::MAX,
        shaped(o, w, h),
        forall|p: (usize, usize)| in_grid(w, h, p) ==> #[trigger] at(o, p) <= 8,
        flash_result(o, n, w, h),
    ensures
        zero_total(n) == 0,
        forall|p: (usize, usize)| in_grid(w, h, p) ==> #[trigger] at(n, p) == at(o, p) + 1,
{
    let none = Set::<(usize, usize)>::empty();
    assert(closed_under_flash(o, w, h, none)) by {
        assert forall|p: (usize, usize)| in_grid(w, h, p) && at(o, p) + 1 + near(w, h, p, none) > 9 implies #[trigger] none.contains(
            p,
        ) by {
            lemma_count_empty(neighbors(p.0 as int, p.1 as int, w, h));
        }
    }
    assert(zeros(n) =~= none) by {
        assert forall|p: (usize, usize)| !zeros(n).contains(p) by {
            if zeros(n).contains(p) {
                assert(none.contains(p));
            }
        }
    }
    assert forall|p: (usize, usize)| in_grid(w, h, p) implies #[trigger] at(n, p) == at(o, p) + 1 by {
        lemma_count_empty(neighbors(p.0 as int, p.1 as int, w, h));
        if at(n, p) == 0 {
            assert(zeros(n).contains(p));
        }
    }
    assert forall|y: int, x: int| 0 <= y < n.len() && 0 <= x < n[y].len() implies #[trigger] n[y][x] != 0 by {
        let p = (x as usize, y as usize);
        assert(in_grid(w, h, p));
        assert(at(n, p) == at(o, p) + 1);
    }
    lemma_no_zeros(n);
}

} // verus!
