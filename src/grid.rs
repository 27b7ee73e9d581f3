use vstd::prelude::*;
use itertools::Itertools;
use vstd::math::min;
use crate::text::{decimal, parse_unsigned, split_at_sep, split_pieces, split_ranges};

verus! {

/// A point on a grid, addressed by column `x` and row `y`.
#[derive(Debug, Clone, Copy, PartialEq, Eq, Hash, Structural)]
pub struct Coord {
    pub x: usize,
    pub y: usize,
}

/// The coordinate that `s` writes as `x,y`, if it is one.
pub open spec fn spec_coord(s: Seq<char>) -> Option<Coord> {
    let parts = split_pieces(s, seq![',']);
    if parts.len() == 2 {
        match (decimal_upto(parts[0], usize::MAX as nat), decimal_upto(parts[1], usize::MAX as nat)) {
            (Some(x), Some(y)) => Some(Coord { x: x as usize, y: y as usize }),
            _ => None,
        }
    } else {
        None
    }
}

impl Coord {
    /// Reads a coordinate written `x,y`, two unsigned decimal numbers.
    pub fn from_str(s: &str) -> (r: Result<Coord, &'static str>)
        ensures
            match r {
                Ok(c) => spec_coord(s@) == Some(c),
                Err(_) => spec_coord(s@).is_none(),
            },
    {
        proof {
            reveal_strlit(",");
            assert(",".view() =~= seq![',']);
        }
        let parts = split_at_sep(s, ",");
        let ghost rr = split_ranges(s@, seq![','], 0, 0);
        if parts.len() != 2 {
            return Err("wrong number of entries for a coordinate");
        }
        let x = parse_unsigned(s, parts[0].0, parts[0].1, usize::MAX as u64);
        let y = parse_unsigned(s, parts[1].0, parts[1].1, usize::MAX as u64);
        assert(split_pieces(s@, seq![','])[0] == s@.subrange(rr[0].0, rr[0].1));
        assert(split_pieces(s@, seq![','])[1] == s@.subrange(rr[1].0, rr[1].1));
        match (x, y) {
            (Some(x), Some(y)) => Ok(Coord { x: x as usize, y: y as usize }),
            _ => Err("coordinate entry is not a number"),
        }
    }
}

/// A value that can be read from text: what a grid's cells are parsed into.
pub trait GridCell: Sized {
    /// The value that the text `s` denotes, if any.
    spec fn spec_from_text(s: Seq<char>) -> Option<Self>;

    /// Reads the value written in `s[lo..hi]`.
    fn from_text(s: &str, lo: usize, hi: usize) -> (r: Option<Self>)
        requires
            lo <= hi <= s@.len(),
        ensures
            r == Self::spec_from_text(s@.subrange(lo as int, hi as int)),
    ;
}

/// The unsigned decimal literal `s`, if its value is at most `max`.
pub open spec fn decimal_upto(s: Seq<char>, max: nat) -> Option<nat> {
    match decimal(s) {
        Some(v) => if v <= max {
            Some(v)
        } else {
            None
        },
        None => None,
    }
}

impl GridCell for u8 {
    open spec fn spec_from_text(s: Seq<char>) -> Option<u8> {
        match decimal_upto(s, u8::MAX as nat) {
            Some(v) => Some(v as u8),
            None => None,
        }
    }

    fn from_text(s: &str, lo: usize, hi: usize) -> (r: Option<u8>) {
        match parse_unsigned(s, lo, hi, u8::MAX as u64) {
            Some(v) => Some(v as u8),
            None => None,
        }
    }
}

impl GridCell for u32 {
    open spec fn spec_from_text(s: Seq<char>) -> Option<u32> {
        match decimal_upto(s, u32::MAX as nat) {
            Some(v) => Some(v as u32),
            None => None,
        }
    }

    fn from_text(s: &str, lo: usize, hi: usize) -> (r: Option<u32>) {
        match parse_unsigned(s, lo, hi, u32::MAX as u64) {
            Some(v) => Some(v as u32),
            None => None,
        }
    }
}

impl GridCell for usize {
    open spec fn spec_from_text(s: Seq<char>) -> Option<usize> {
        match decimal_upto(s, usize::MAX as nat) {
            Some(v) => Some(v as usize),
            None => None,
        }
    }

    fn from_text(s: &str, lo: usize, hi: usize) -> (r: Option<usize>) {
        match parse_unsigned(s, lo, hi, usize::MAX as u64) {
            Some(v) => Some(v as usize),
            None => None,
        }
    }
}

/// The pieces that a line is cut into: one per character where `sep` is
/// empty, else the text between occurrences of `sep`.
pub open spec fn row_tokens(line: Seq<char>, sep: Seq<char>) -> Seq<Seq<char>> {
    if sep.len() == 0 {
        Seq::new(line.len(), |i: int| line.subrange(i, i + 1))
    } else {
        split_pieces(line, sep)
    }
}

/// Every piece of the line reads as a value.
pub open spec fn row_parses<T: GridCell>(line: Seq<char>, sep: Seq<char>) -> bool {
    forall|i: int| 0 <= i < row_tokens(line, sep).len() ==> #[trigger] T::spec_from_text(row_tokens(line, sep)[i]).is_some()
}

/// `row` holds the values that the pieces of the line read as, in order.
pub open spec fn row_values<T: GridCell>(line: Seq<char>, sep: Seq<char>, row: Seq<T>) -> bool {
    &&& row.len() == row_tokens(line, sep).len()
    &&& forall|i: int| 0 <= i < row.len() ==> T::spec_from_text(#[trigger] row_tokens(line, sep)[i]) == Some(row[i])
}

/// The values written on one line; `None` where a piece reads as no value.
fn parse_row<T: GridCell>(line: &str, sep: &str) -> (r: Option<Vec<T>>)
    ensures
        match r {
            Some(v) => row_parses::<T>(line@, sep@) && row_values(line@, sep@, v@),
            None => !row_parses::<T>(line@, sep@),
        },
{
    let ghost toks = row_tokens(line@, sep@);
    let ranges: Vec<(usize, usize)> = if sep.unicode_len() == 0 {
        let n = line.unicode_len();
        let mut rs: Vec<(usize, usize)> = Vec::new();
        let mut i: usize = 0;
        while i < n
            invariant
                i <= n,
                n == line@.len(),
                rs@.len() == i,
                forall|k: int| 0 <= k < i ==> #[trigger] rs@[k] == (k as usize, (k + 1) as usize),
            decreases n - i,
        {
            rs.push((i, i + 1));
            i = i + 1;
        }
        rs
    } else {
        split_at_sep(line, sep)
    };
    assert(ranges@.len() == toks.len());
    assert forall|k: int| 0 <= k < ranges@.len() implies (#[trigger] ranges@[k]).0 <= ranges@[k].1 <= line@.len()
        && line@.subrange(ranges@[k].0 as int, ranges@[k].1 as int) == toks[k] by {
        if sep@.len() != 0 {
            let rr = split_ranges(line@, sep@, 0, 0);
            assert(toks[k] == line@.subrange(rr[k].0, rr[k].1));
        }
    }
    let mut out: Vec<T> = Vec::new();
    let mut k: usize = 0;
    while k < ranges.len()
        invariant
            k <= ranges@.len(),
            ranges@.len() == toks.len(),
            toks == row_tokens(line@, sep@),
            forall|j: int| 0 <= j < ranges@.len() ==> (#[trigger] ranges@[j]).0 <= ranges@[j].1 <= line@.len()
                && line@.subrange(ranges@[j].0 as int, ranges@[j].1 as int) == toks[j],
            out@.len() == k,
            forall|j: int| 0 <= j < k ==> T::spec_from_text(#[trigger] toks[j]) == Some(out@[j]),
        decreases ranges@.len() - k,
    {
        let (lo, hi) = ranges[k];
        match T::from_text(line, lo, hi) {
            Some(v) => out.push(v),
            None => {
                assert(T::spec_from_text(toks[k as int]).is_none());
                return None;
            },
        }
        k = k + 1;
    }
    Some(out)
}

/// A dense two-dimensional container: one row per `Vec`, addressed by `(x, y)`.
#[derive(Debug, Clone)]
pub struct Grid<T> {
    data: Vec<Vec<T>>,
    width: usize,
    height: usize,
}

/// Every row of `rows` has the length of the first one.
pub open spec fn rectangular<T>(rows: Seq<Seq<T>>) -> bool {
    forall|y: int| 0 <= y < rows.len() ==> #[trigger] rows[y].len() == rows[0].len()
}

/// The width a grid built from `rows` reports: the length of the first row.
pub open spec fn width_of<T>(rows: Seq<Seq<T>>) -> nat {
    if rows.len() == 0 {
        0
    } else {
        rows[0].len()
    }
}

/// `(x, y)` is within the grid `w` cells wide and `h` high, and differs from
/// `(cx, cy)` by at most one step in each direction, without being it.
pub open spec fn is_neighbor(cx: int, cy: int, w: int, h: int, p: (usize, usize)) -> bool {
    &&& 0 <= p.0 < w
    &&& 0 <= p.1 < h
    &&& cx - 1 <= p.0 <= cx + 1
    &&& cy - 1 <= p.1 <= cy + 1
    &&& (p.0 != cx || p.1 != cy)
}

/// The `k`-th cell of the 3×3 block around `(cx, cy)`, top row first, each row
/// from left to right.
pub open spec fn block_cell(cx: int, cy: int, k: int) -> (int, int) {
    (cx + k % 3 - 1, cy + k / 3 - 1)
}

/// Whether the `k`-th cell of the block lies in the grid and is not the centre.
pub open spec fn block_keeps(cx: int, cy: int, w: int, h: int, k: int) -> bool {
    let (nx, ny) = block_cell(cx, cy, k);
    0 <= nx < w && 0 <= ny < h && (nx != cx || ny != cy)
}

/// The neighbours among the first `k` cells of the block, in block order.
pub open spec fn neighbors_upto(cx: int, cy: int, w: int, h: int, k: nat) -> Seq<(usize, usize)>
    decreases k,
{
    if k == 0 {
        seq![]
    } else {
        let prev = neighbors_upto(cx, cy, w, h, (k - 1) as nat);
        if block_keeps(cx, cy, w, h, k - 1) {
            let (nx, ny) = block_cell(cx, cy, k - 1);
            prev.push((nx as usize, ny as usize))
        } else {
            prev
        }
    }
}

/// The neighbours of `(cx, cy)` in a grid `w` cells wide and `h` high, in block order.
pub open spec fn neighbors(cx: int, cy: int, w: int, h: int) -> Seq<(usize, usize)> {
    neighbors_upto(cx, cy, w, h, 9)
}

/// Relies on Itertools::cartesian_product: the pairs of `0..3` with `0..3`,
/// the first component varying slowest.
#[verifier::external_body]
fn block_offsets() -> (r: Vec<(usize, usize)>)
    ensures
        r@.len() == 9,
        forall|k: int| 0 <= k < 9 ==> #[trigger] r@[k] == ((k / 3) as usize, (k % 3) as usize),
{
    (0..3usize).cartesian_product(0..3usize).collect()
}

impl<T: GridCell> Grid<T> {
    /// Parses one row per line: each character is a cell where `sep` is empty,
    /// else the text between occurrences of `sep`. Fails where any piece reads
    /// as no value.
    pub fn parse_grid(lines: &Vec<String>, sep: &str) -> (r: Result<Grid<T>, &'static str>)
        ensures
            match r {
                Ok(g) => {
                    &&& g.wf()
                    &&& g.cells().len() == lines@.len()
                    &&& forall|y: int| 0 <= y < lines@.len() ==> #[trigger] row_parses::<T>(lines@[y]@, sep@)
                        && row_values(lines@[y]@, sep@, g.cells()[y])
                },
                Err(e) => e == "parse error" && exists|y: int| 0 <= y < lines@.len() && !#[trigger] row_parses::<T>(lines@[y]@, sep@),
            },
    {
        let mut data: Vec<Vec<T>> = Vec::new();
        let mut y: usize = 0;
        while y < lines.len()
            invariant
                y <= lines@.len(),
                data@.len() == y,
                forall|j: int| 0 <= j < y ==> #[trigger] row_parses::<T>(lines@[j]@, sep@)
                    && row_values(lines@[j]@, sep@, data@[j]@),
            decreases lines@.len() - y,
        {
            match parse_row::<T>(lines[y].as_str(), sep) {
                Some(row) => data.push(row),
                None => {
                    assert(!row_parses::<T>(lines@[y as int]@, sep@));
                    return Err("parse error");
                },
            }
            y = y + 1;
        }
        let ghost rows = data@;
        let g = Grid::new(data);
        assert forall|j: int| 0 <= j < lines@.len() implies #[trigger] row_parses::<T>(lines@[j]@, sep@)
            && row_values(lines@[j]@, sep@, g.cells()[j]) by {
            assert(rows.len() == lines@.len());
            assert(row_parses::<T>(lines@[j]@, sep@));
            assert(row_values(lines@[j]@, sep@, rows[j]@));
            assert(g.cells()[j] == rows[j]@);
        }
        Ok(g)
    }
}

impl<T> Grid<T> {
    /// The rows of the grid.
    pub closed spec fn cells(&self) -> Seq<Seq<T>> {
        self.data@.map_values(|r: Vec<T>| r@)
    }

    pub closed spec fn spec_width(&self) -> nat {
        self.width as nat
    }

    pub closed spec fn spec_height(&self) -> nat {
        self.height as nat
    }

    /// What `wf` says of the size, for callers that cannot see inside it.
    pub proof fn lemma_wf_size(&self)
        requires
            self.wf(),
        ensures
            self.spec_height() == self.cells().len(),
            self.spec_width() == width_of(self.cells()),
    {
    }

    /// The recorded width and height are those of the rows held.
    pub closed spec fn wf(&self) -> bool {
        &&& self.height == self.data@.len()
        &&& self.width == width_of(self.cells())
    }

    /// `(x, y)` addresses a value actually held.
    pub open spec fn holds(&self, x: int, y: int) -> bool {
        0 <= y < self.cells().len() && 0 <= x < self.cells()[y].len()
    }

    /// Builds a grid from its rows; the width is that of the first row.
    pub fn new(data: Vec<Vec<T>>) -> (r: Grid<T>)
        ensures
            r.wf(),
            r.cells() == data@.map_values(|v: Vec<T>| v@),
            r.spec_height() == data@.len(),
            r.spec_width() == width_of(r.cells()),
    {
        let height = data.len();
        let width = if height == 0 {
            0
        } else {
            data[0].len()
        };
        Grid { data, height, width }
    }

    /// `(width, height)`.
    pub fn size(&self) -> (r: (usize, usize))
        ensures
            r.0 == self.spec_width(),
            r.1 == self.spec_height(),
    {
        (self.width, self.height)
    }

    /// The value at `(x, y)`, or `None` where no value is held there.
    pub fn get(&self, x: usize, y: usize) -> (r: Option<&T>)
        ensures
            match r {
                Some(v) => self.holds(x as int, y as int) && *v == self.cells()[y as int][x as int],
                None => !self.holds(x as int, y as int),
            },
    {
        if y < self.data.len() && x < self.data[y].len() {
            Some(&self.data[y][x])
        } else {
            None
        }
    }

    /// The value at `(x, y)`; the cell must exist.
    pub fn index(&self, x: usize, y: usize) -> (r: &T)
        requires
            self.holds(x as int, y as int),
        ensures
            *r == self.cells()[y as int][x as int],
    {
        &self.data[y][x]
    }

    /// A mutable reference to the value at `(x, y)`; the cell must exist.
    pub fn index_mut(&mut self, x: usize, y: usize) -> (r: &mut T)
        requires
            old(self).holds(x as int, y as int),
        ensures
            *r == old(self).cells()[y as int][x as int],
            final(self).cells() == old(self).cells().update(
                y as int,
                old(self).cells()[y as int].update(x as int, *final(r)),
            ),
            final(self).spec_width() == old(self).spec_width(),
            final(self).spec_height() == old(self).spec_height(),
            old(self).wf() ==> final(self).wf(),
    {
        &mut self.data[y][x]
    }

    /// A mutable reference to the value at `(x, y)`, or `None` where no value is
    /// held there (the grid is then left as it was).
    pub fn get_mut(&mut self, x: usize, y: usize) -> (r: Option<&mut T>)
        ensures
            old(self).holds(x as int, y as int) ==> {
                &&& r.is_some()
                &&& *r.unwrap() == old(self).cells()[y as int][x as int]
                &&& final(self).cells() == old(self).cells().update(
                    y as int,
                    old(self).cells()[y as int].update(x as int, *final(r.unwrap())),
                )
            },
            !old(self).holds(x as int, y as int) ==> r.is_none() && *final(self) == *old(self),
            final(self).spec_width() == old(self).spec_width(),
            final(self).spec_height() == old(self).spec_height(),
            old(self).wf() ==> final(self).wf(),
    {
        if y < self.data.len() && x < self.data[y].len() {
            Some(self.index_mut(x, y))
        } else {
            None
        }
    }

    /// Every row paired with its coordinates, in row-major order: row `y` holds
    /// `(value, (x, y))` for each `x` below both the row's length and the width.
    pub fn iter_coords(&self) -> (r: Vec<Vec<(&T, (usize, usize))>>)
        ensures
            r@.len() == self.cells().len(),
            forall|y: int| 0 <= y < r@.len() ==> #[trigger] r@[y]@.len() == min(
                self.cells()[y].len() as int,
                self.spec_width() as int,
            ),
            forall|y: int, x: int|
                0 <= y < r@.len() && 0 <= x < r@[y]@.len() ==> #[trigger] r@[y]@[x] == (
                    &self.cells()[y][x],
                    (x as usize, y as usize),
                ),
    {
        let mut rows: Vec<Vec<(&T, (usize, usize))>> = Vec::new();
        let mut y: usize = 0;
        while y < self.data.len()
            invariant
                y <= self.data@.len(),
                rows@.len() == y,
                forall|j: int| 0 <= j < y ==> #[trigger] rows@[j]@.len() == min(
                    self.cells()[j].len() as int,
                    self.spec_width() as int,
                ),
                forall|j: int, i: int|
                    0 <= j < y && 0 <= i < rows@[j]@.len() ==> #[trigger] rows@[j]@[i] == (
                        &self.cells()[j][i],
                        (i as usize, j as usize),
                    ),
            decreases self.data@.len() - y,
        {
            let row = &self.data[y];
            let n = if row.len() < self.width { row.len() } else { self.width };
            let mut out: Vec<(&T, (usize, usize))> = Vec::new();
            let mut x: usize = 0;
            while x < n
                invariant
                    x <= n,
                    n <= row@.len(),
                    row@ == self.cells()[y as int],
                    out@.len() == x,
                    forall|i: int| 0 <= i < x ==> #[trigger] out@[i] == (&row@[i], (i as usize, y)),
                decreases n - x,
            {
                out.push((&row[x], (x, y)));
                x = x + 1;
            }
            rows.push(out);
            y = y + 1;
        }
        rows
    }

    /// Replaces every value by what `f` makes of it and its coordinates, row by
    /// row.
    pub fn iter_mut_coords<F: Fn(&T, (usize, usize)) -> T>(&mut self, f: F)
        requires
            old(self).wf(),
            forall|y: int, x: int|
                old(self).holds(x, y) ==> #[trigger] f.requires((&old(self).cells()[y][x], (x as usize, y as usize))),
        ensures
            final(self).wf(),
            final(self).spec_width() == old(self).spec_width(),
            final(self).spec_height() == old(self).spec_height(),
            final(self).cells().len() == old(self).cells().len(),
            forall|y: int| 0 <= y < old(self).cells().len() ==> #[trigger] final(self).cells()[y].len() == old(self).cells()[y].len(),
            forall|y: int, x: int|
                old(self).holds(x, y) ==> f.ensures(
                    (&old(self).cells()[y][x], (x as usize, y as usize)),
                    #[trigger] final(self).cells()[y][x],
                ),
    {
        let ghost start = self.cells();
        let mut y: usize = 0;
        while y < self.data.len()
            invariant
                y <= self.data@.len(),
                self.wf(),
                self.spec_width() == old(self).spec_width(),
                self.spec_height() == old(self).spec_height(),
                start == old(self).cells(),
                self.cells().len() == start.len(),
                forall|r: int| 0 <= r < start.len() ==> #[trigger] self.cells()[r].len() == start[r].len(),
                forall|r: int, x: int|
                    start.len() > r >= y && 0 <= x < start[r].len() ==> #[trigger] self.cells()[r][x] == start[r][x],
                forall|r: int, x: int|
                    0 <= r < y && 0 <= x < start[r].len() ==> f.ensures((&start[r][x], (x as usize, r as usize)), #[trigger] self.cells()[r][x]),
                forall|r: int, x: int|
                    0 <= r < start.len() && 0 <= x < start[r].len() ==> #[trigger] f.requires((&start[r][x], (x as usize, r as usize))),
            decreases self.data@.len() - y,
        {
            let n = self.data[y].len();
            assert(self.cells()[y as int] == self.data@[y as int]@);
            let mut x: usize = 0;
            while x < n
                invariant
                    x <= n,
                    y < self.data@.len(),
                    n == start[y as int].len(),
                    self.wf(),
                    self.spec_width() == old(self).spec_width(),
                    self.spec_height() == old(self).spec_height(),
                    start == old(self).cells(),
                    self.cells().len() == start.len(),
                    forall|r: int| 0 <= r < start.len() ==> #[trigger] self.cells()[r].len() == start[r].len(),
                    forall|r: int, c: int|
                        start.len() > r > y && 0 <= c < start[r].len() ==> #[trigger] self.cells()[r][c] == start[r][c],
                    forall|c: int| x <= c < n ==> #[trigger] self.cells()[y as int][c] == start[y as int][c],
                    forall|r: int, c: int|
                        0 <= r < y && 0 <= c < start[r].len() ==> f.ensures((&start[r][c], (c as usize, r as usize)), #[trigger] self.cells()[r][c]),
                    forall|c: int| 0 <= c < x ==> f.ensures((&start[y as int][c], (c as usize, y)), #[trigger] self.cells()[y as int][c]),
                    forall|r: int, c: int|
                        0 <= r < start.len() && 0 <= c < start[r].len() ==> #[trigger] f.requires((&start[r][c], (c as usize, r as usize))),
                decreases n - x,
            {
                assert(self.cells()[y as int][x as int] == start[y as int][x as int]);
                let v = f(self.index(x, y), (x, y));
                *self.index_mut(x, y) = v;
                x = x + 1;
            }
            y = y + 1;
        }
    }

    /// The neighbours of `(x, y)`: the cells of the 3×3 block around it that lie
    /// in the grid, without `(x, y)` itself, top row first, each row from left
    /// to right.
    pub fn iter_neighbors(&self, x: usize, y: usize) -> (r: Vec<(usize, usize)>)
        ensures
            r@ == neighbors(x as int, y as int, self.spec_width() as int, self.spec_height() as int),
    {
        let (w, h) = (self.width, self.height);
        let offsets = block_offsets();
        let mut out: Vec<(usize, usize)> = Vec::new();
        let mut k: usize = 0;
        while k < 9
            invariant
                k <= 9,
                w == self.spec_width(),
                h == self.spec_height(),
                offsets@.len() == 9,
                forall|j: int| 0 <= j < 9 ==> #[trigger] offsets@[j] == ((j / 3) as usize, (j % 3) as usize),
                out@ == neighbors_upto(x as int, y as int, w as int, h as int, k as nat),
            decreases 9 - k,
        {
            let (dy, dx) = offsets[k];
            assert(dy == k / 3 && dx == k % 3);
            let x_ok = if dx == 0 {
                x >= 1 && x - 1 < w
            } else if dx == 1 {
                x < w
            } else {
                x < w && x + 1 < w
            };
            let y_ok = if dy == 0 {
                y >= 1 && y - 1 < h
            } else if dy == 1 {
                y < h
            } else {
                y < h && y + 1 < h
            };
            if x_ok && y_ok && (dx != 1 || dy != 1) {
                let nx = if dx == 0 { x - 1 } else if dx == 1 { x } else { x + 1 };
                let ny = if dy == 0 { y - 1 } else if dy == 1 { y } else { y + 1 };
                out.push((nx, ny));
            }
            k = k + 1;
        }
        out
    }
}

/// A grid built from rows of equal length reports their length and number as
/// its size, holds at each `(x, y)` inside that size the value supplied there,
/// and holds nothing at or beyond the width or the height.
pub proof fn lemma_rectangular_grid<T>(rows: Seq<Seq<T>>, g: Grid<T>)
    requires
        rectangular(rows),
        g.wf(),
        g.cells() == rows,
    ensures
        g.spec_width() == width_of(rows),
        g.spec_height() == rows.len(),
        forall|x: int, y: int|
            0 <= x < g.spec_width() && 0 <= y < g.spec_height() ==> #[trigger] g.holds(x, y) && g.cells()[y][x]
                == rows[y][x],
        forall|x: int, y: int|
            0 <= x && 0 <= y && (x >= g.spec_width() || y >= g.spec_height()) ==> !#[trigger] g.holds(x, y),
{
    g.lemma_wf_size();
}

/// Which cells come out of the neighbour enumeration: every one that lies in
/// the grid and touches `(cx, cy)`, sides or corners, and nothing else; none
/// twice. An interior cell has eight, a corner three and any other border cell
/// five.
pub proof fn lemma_neighbor_counts(cx: usize, cy: usize, w: usize, h: usize)
    requires
        cx < w,
        cy < h,
    ensures
        forall|p: (usize, usize)|
            neighbors(cx as int, cy as int, w as int, h as int).contains(p) <==> is_neighbor(
                cx as int,
                cy as int,
                w as int,
                h as int,
                p,
            ),
        !neighbors(cx as int, cy as int, w as int, h as int).contains((cx, cy)),
        neighbors(cx as int, cy as int, w as int, h as int).no_duplicates(),
        0 < cx < w - 1 && 0 < cy < h - 1 ==> neighbors(
            cx as int,
            cy as int,
            w as int,
            h as int,
        ).len() == 8,
        w >= 2 && h >= 2 && (cx == 0 || cx == w - 1) && (cy == 0 || cy == h - 1) ==> neighbors(
            cx as int,
            cy as int,
            w as int,
            h as int,
        ).len() == 3,
        w >= 3 && h >= 3 && (cx == 0 || cx == w - 1) != (cy == 0 || cy == h - 1) ==> neighbors(
            cx as int,
            cy as int,
            w as int,
            h as int,
        ).len() == 5,
{
    let (x, y, wi, hi) = (cx as int, cy as int, w as int, h as int);
    lemma_neighbors_upto(x, y, wi, hi, 9);
    let s = neighbors(x, y, wi, hi);
    assert forall|p: (usize, usize)| s.contains(p) <==> is_neighbor(x, y, wi, hi, p) by {
        if is_neighbor(x, y, wi, hi, p) {
            let k = (p.1 - y + 1) * 3 + (p.0 - x + 1);
            assert(block_cell(x, y, k) == (p.0 as int, p.1 as int));
            assert(block_keeps(x, y, wi, hi, k));
        }
    }
    lemma_kept_counts(x, y, wi, hi);
}

proof fn lemma_kept_counts(x: int, y: int, w: int, h: int)
    requires
        0 <= x < w,
        0 <= y < h,
    ensures
        0 < x < w - 1 && 0 < y < h - 1 ==> kept_upto(x, y, w, h, 9) == 8,
        w >= 2 && h >= 2 && (x == 0 || x == w - 1) && (y == 0 || y == h - 1) ==> kept_upto(x, y, w, h, 9) == 3,
        w >= 3 && h >= 3 && (x == 0 || x == w - 1) != (y == 0 || y == h - 1) ==> kept_upto(x, y, w, h, 9) == 5,
{
    reveal_with_fuel(kept_upto, 10);
    assert(block_cell(x, y, 0) == (x - 1, y - 1));
    assert(block_cell(x, y, 1) == (x, y - 1));
    assert(block_cell(x, y, 2) == (x + 1, y - 1));
    assert(block_cell(x, y, 3) == (x - 1, y));
    assert(block_cell(x, y, 4) == (x, y));
    assert(block_cell(x, y, 5) == (x + 1, y));
    assert(block_cell(x, y, 6) == (x - 1, y + 1));
    assert(block_cell(x, y, 7) == (x, y + 1));
    assert(block_cell(x, y, 8) == (x + 1, y + 1));
}

/// How many of the first `k` cells of the block are kept.
spec fn kept_upto(x: int, y: int, w: int, h: int, k: nat) -> nat
    decreases k,
{
    if k == 0 {
        0
    } else {
        kept_upto(x, y, w, h, (k - 1) as nat) + if block_keeps(x, y, w, h, k - 1) {
            1nat
        } else {
            0nat
        }
    }
}

/// The first `k` cells of the block give distinct neighbours, each one a kept
/// block cell.
proof fn lemma_neighbors_upto(x: int, y: int, w: int, h: int, k: nat)
    requires
        k <= 9,
        0 <= w <= usize::MAX,
        0 <= h <= usize::MAX,
    ensures
        neighbors_upto(x, y, w, h, k).no_duplicates(),
        forall|p: (usize, usize)|
            #[trigger] neighbors_upto(x, y, w, h, k).contains(p) ==> exists|j: int|
                0 <= j < k && block_keeps(x, y, w, h, j) && block_cell(x, y, j) == (p.0 as int, p.1 as int),
        forall|i: int|
            0 <= i < neighbors_upto(x, y, w, h, k).len() ==> 0 <= (#[trigger] neighbors_upto(x, y, w, h, k)[i]).0 < w
                && 0 <= neighbors_upto(x, y, w, h, k)[i].1 < h,
        neighbors_upto(x, y, w, h, k).len() == kept_upto(x, y, w, h, k),
        forall|j: int|
            0 <= j < k && #[trigger] block_keeps(x, y, w, h, j) ==> neighbors_upto(x, y, w, h, k).contains(
                (block_cell(x, y, j).0 as usize, block_cell(x, y, j).1 as usize),
            ),
    decreases k,
{
    if k > 0 {
        lemma_neighbors_upto(x, y, w, h, (k - 1) as nat);
        let prev = neighbors_upto(x, y, w, h, (k - 1) as nat);
        if block_keeps(x, y, w, h, k - 1) {
            let (nx, ny) = block_cell(x, y, k - 1);
            let q = (nx as usize, ny as usize);
            assert(!prev.contains(q)) by {
                if prev.contains(q) {
                    let j = choose|j: int| 0 <= j < k - 1 && block_keeps(x, y, w, h, j) && block_cell(x, y, j) == (q.0 as int, q.1 as int);
                    assert(j == 3 * (j / 3) + j % 3);
                    assert(k - 1 == 3 * ((k - 1) / 3) + (k - 1) % 3);
                }
            }
            let cur = prev.push(q);
            assert forall|p: (usize, usize)| #[trigger] cur.contains(p) implies exists|j: int|
                0 <= j < k && block_keeps(x, y, w, h, j) && block_cell(x, y, j) == (p.0 as int, p.1 as int) by {
                if p == q {
                    assert(block_cell(x, y, k - 1) == (p.0 as int, p.1 as int));
                } else {
                    assert(prev.contains(p));
                }
            }
            assert forall|j: int| 0 <= j < k && #[trigger] block_keeps(x, y, w, h, j) implies cur.contains(
                (block_cell(x, y, j).0 as usize, block_cell(x, y, j).1 as usize),
            ) by {
                if j < k - 1 {
                    let e = (block_cell(x, y, j).0 as usize, block_cell(x, y, j).1 as usize);
                    let i = choose|i: int| 0 <= i < prev.len() && prev[i] == e;
                    assert(cur[i] == e);
                } else {
                    assert(cur[cur.len() - 1] == q);
                }
            }
        } else {
            assert forall|j: int| 0 <= j < k && #[trigger] block_keeps(x, y, w, h, j) implies prev.contains(
                (block_cell(x, y, j).0 as usize, block_cell(x, y, j).1 as usize),
            ) by {
                if j == k - 1 {
                    assert(!block_keeps(x, y, w, h, k - 1));
                }
            }
        }
    }
}

} // verus!
