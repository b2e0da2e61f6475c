//! Tiles: named lists of cells, with the moves of the square's symmetry group.
use vstd::prelude::*;
use crate::cells::{
    anchored, cell_le, cell_lt, height, lemma_max_x, lemma_max_y, lemma_min_x, lemma_min_y,
    lemma_sorted_is, max_x, max_y, min_x, min_y, mirrored, normalized, rotated, sorted, translated,
    width,
};
use crate::geometry::{Point, Size};

verus! {

/// The cells that a list of points stands for.
pub open spec fn cells_of(points: Seq<Point>) -> Seq<(int, int)> {
    Seq::new(points.len(), |i: int| points[i]@)
}

/// Column reached after scanning `s`: characters since the last line break.
pub open spec fn scan_col(s: Seq<char>) -> int
    decreases s.len(),
{
    if s.len() == 0 || s.last() == '\n' {
        0
    } else {
        scan_col(s.drop_last()) + 1
    }
}

/// Row reached after scanning `s`: the number of line breaks in it.
pub open spec fn scan_row(s: Seq<char>) -> int
    decreases s.len(),
{
    if s.len() == 0 {
        0
    } else if s.last() == '\n' {
        scan_row(s.drop_last()) + 1
    } else {
        scan_row(s.drop_last())
    }
}

/// The cells drawn in `s`, in reading order: one for each `x`, at the
/// column and row where it stands.
pub open spec fn scan_cells(s: Seq<char>) -> Seq<(int, int)>
    decreases s.len(),
{
    if s.len() == 0 {
        Seq::empty()
    } else if s.last() == 'x' {
        scan_cells(s.drop_last()).push((scan_col(s.drop_last()), scan_row(s.drop_last())))
    } else {
        scan_cells(s.drop_last())
    }
}

/// Column and row stay within the number of characters read, and every
/// cell read so far stands before the current position in reading order.
pub proof fn lemma_scan_bounds(s: Seq<char>)
    ensures
        0 <= scan_col(s),
        0 <= scan_row(s),
        scan_col(s) + scan_row(s) <= s.len(),
        scan_cells(s).len() <= s.len(),
        forall|i: int|
            0 <= i < scan_cells(s).len() ==> 0 <= (#[trigger] scan_cells(s)[i]).0 && 0
                <= scan_cells(s)[i].1 <= scan_row(s) && scan_cells(s)[i].0 + scan_cells(s)[i].1
                < s.len() && (scan_cells(s)[i].1 == scan_row(s) ==> scan_cells(s)[i].0
                < scan_col(s)),
        forall|i: int, j: int|
            0 <= i < j < scan_cells(s).len() ==> (#[trigger] scan_cells(s)[i]).1 < (
            #[trigger] scan_cells(s)[j]).1 || (scan_cells(s)[i].1 == scan_cells(s)[j].1
                && scan_cells(s)[i].0 < scan_cells(s)[j].0),
    decreases s.len(),
{
    if s.len() > 0 {
        lemma_scan_bounds(s.drop_last());
    }
}

/// No cell is drawn twice.
pub proof fn lemma_scan_distinct(s: Seq<char>)
    ensures
        scan_cells(s).no_duplicates(),
{
    lemma_scan_bounds(s);
}

/// Whether `a` stands before `b`: by x, then by y.
pub fn point_lt(a: &Point, b: &Point) -> (r: bool)
    ensures
        r == cell_lt(a@, b@),
{
    a.x < b.x || (a.x == b.x && a.y < b.y)
}

/// The points in lexicographic order.
pub fn sorted_points(points: &Vec<Point>) -> (out: Vec<Point>)
    ensures
        cells_of(out@) == sorted(cells_of(points@)),
{
    let ghost src = cells_of(points@);
    let mut out: Vec<Point> = Vec::new();
    let n = points.len();
    let mut i: usize = 0;
    assert(src.take(0) =~= cells_of(out@));
    while i < n
        invariant
            i <= n,
            n == points.len(),
            src == cells_of(points@),
            out.len() == i,
            cells_of(out@).to_multiset() == src.take(i as int).to_multiset(),
            forall|a: int, b: int|
                0 <= a < b < out.len() ==> cell_le(
                    #[trigger] cells_of(out@)[a],
                    #[trigger] cells_of(out@)[b],
                ),
        decreases n - i,
    {
        let p = points[i];
        let m = out.len();
        let mut k: usize = 0;
        while k < m && point_lt(&out[k], &p)
            invariant
                k <= m,
                m == out.len(),
                forall|a: int| 0 <= a < k ==> cell_lt(#[trigger] cells_of(out@)[a], p@),
            decreases m - k,
        {
            assert(cells_of(out@)[k as int] == out[k as int]@);
            k += 1;
        }
        let ghost before = cells_of(out@);
        proof {
            if k < m {
                assert(before[k as int] == out[k as int]@);
            }
            crate::cells::lemma_insert_adds_one(before, k as int, p@);
            vstd::seq_lib::to_multiset_build(src.take(i as int), p@);
            assert(src.take(i + 1) =~= src.take(i as int).push(p@));
        }
        out.insert(k, p);
        proof {
            let after = cells_of(out@);
            assert(after =~= before.insert(k as int, p@));
            assert forall|a: int, b: int| 0 <= a < b < out.len() implies cell_le(
                #[trigger] after[a],
                #[trigger] after[b],
            ) by {
                let a0 = if a < k { a } else { a - 1 };
                let b0 = if b < k { b } else { b - 1 };
                if a != k && b != k {
                    assert(cell_le(before[a0], before[b0]));
                } else if a == k {
                    assert(cell_le(before[k as int], before[b0]));
                } else {
                    assert(cell_lt(before[a0], p@));
                }
            }
        }
        i += 1;
    }
    proof {
        assert(src.take(n as int) == src);
        lemma_sorted_is(src, cells_of(out@));
    }
    out
}

/// A named shape.
#[derive(Eq, Hash, PartialEq, Clone, Ord, PartialOrd, Debug)]
pub struct Tile {
    pub name: String,
    pub points: Vec<Point>,
}

impl Tile {
    /// The cells of the tile, in the order of its points.
    pub open spec fn cells(&self) -> Seq<(int, int)> {
        cells_of(self.points@)
    }

    /// No cell occurs twice.
    pub open spec fn distinct(&self) -> bool {
        self.cells().no_duplicates()
    }

    /// The extent of the tile in each direction fits the coordinate type.
    pub open spec fn spans_fit(&self) -> bool {
        forall|i: int, j: int|
            0 <= i < self.points.len() && 0 <= j < self.points.len() ==> (
            #[trigger] self.points[i]).x - (#[trigger] self.points[j]).x < isize::MAX
                && self.points[i].y - self.points[j].y < isize::MAX
    }

    /// No cell occurs twice, and every coordinate and every extent is
    /// within what the coordinate type holds after any turn.
    pub open spec fn tidy(&self) -> bool {
        crate::placing::tidy(self.cells())
    }

    /// A tidy tile can be turned, reflected and measured.
    pub proof fn lemma_tidy(&self)
        requires
            self.tidy(),
        ensures
            self.distinct(),
            self.spans_fit(),
            forall|i: int|
                0 <= i < self.points.len() ==> (#[trigger] self.points[i]).x > isize::MIN
                    && self.points[i].y > isize::MIN,
    {
        let c = self.cells();
        assert forall|i: int, j: int|
            0 <= i < self.points.len() && 0 <= j < self.points.len() implies (
        #[trigger] self.points[i]).x - (#[trigger] self.points[j]).x < isize::MAX
            && self.points[i].y - self.points[j].y < isize::MAX by {
            assert(c[i] == self.points[i]@ && c[j] == self.points[j]@);
            assert(c[i].0 - c[j].0 < isize::MAX);
        }
        assert forall|i: int| 0 <= i < self.points.len() implies (#[trigger] self.points[i]).x
            > isize::MIN && self.points[i].y > isize::MIN by {
            assert(c[i] == self.points[i]@);
        }
    }

    /// The bounding box of a tile that can be measured fits the coordinate
    /// type.
    pub proof fn lemma_box_fits(&self)
        requires
            self.spans_fit(),
        ensures
            0 <= width(self.cells()) <= isize::MAX,
            0 <= height(self.cells()) <= isize::MAX,
    {
        let c = self.cells();
        if c.len() > 0 {
            lemma_min_x(c);
            lemma_max_x(c);
            lemma_min_y(c);
            lemma_max_y(c);
            let a = choose|i: int| 0 <= i < c.len() && (#[trigger] c[i]).0 == min_x(c);
            let b = choose|i: int| 0 <= i < c.len() && (#[trigger] c[i]).0 == max_x(c);
            let d = choose|i: int| 0 <= i < c.len() && (#[trigger] c[i]).1 == min_y(c);
            let e = choose|i: int| 0 <= i < c.len() && (#[trigger] c[i]).1 == max_y(c);
            assert(c[a] == self.points[a]@ && c[b] == self.points[b]@);
            assert(c[d] == self.points[d]@ && c[e] == self.points[e]@);
            assert(self.points[b].x - self.points[a].x < isize::MAX);
            assert(self.points[e].y - self.points[d].y < isize::MAX);
        }
    }

    /// A tile with the same name and the same cells.
    pub fn copy(&self) -> (t: Self)
        ensures
            t.name@ == self.name@,
            t.points@ == self.points@,
    {
        let mut points: Vec<Point> = Vec::new();
        let n = self.points.len();
        let mut i: usize = 0;
        while i < n
            invariant
                i <= n,
                n == self.points.len(),
                points@ == self.points@.take(i as int),
            decreases n - i,
        {
            points.push(self.points[i]);
            assert(self.points@.take(i + 1) =~= self.points@.take(i as int).push(
                self.points[i as int],
            ));
            i += 1;
        }
        assert(self.points@.take(n as int) =~= self.points@);
        Tile { name: self.name.clone(), points: points }
    }

    /// A tile without cells.
    pub fn new(name: &str) -> (t: Self)
        ensures
            t.name@ == name@,
            t.points@.len() == 0,
    {
        Tile { name: name.to_owned(), points: Vec::new() }
    }

    /// Reads a drawing: `x` is a cell, a line break starts the next row, any
    /// other character is an empty position.  The cells keep their reading
    /// order and are moved so that the bounding box starts at the origin.
    pub fn from_str(name: &str, contents: &str) -> (t: Self)
        requires
            contents@.len() <= isize::MAX,
        ensures
            t.name@ == name@,
            t.cells() == anchored(scan_cells(contents@)),
            t.points@.len() > 0 ==> min_x(t.cells()) == 0 && min_y(t.cells()) == 0,
            forall|i: int|
                0 <= i < t.points@.len() ==> (#[trigger] t.points[i]).x >= 0 && t.points[i].y >= 0,
            t.distinct(),
            t.spans_fit(),
            t.tidy(),
    {
        proof {
            crate::cells::lemma_anchored(scan_cells(contents@));
        }
        let mut row: usize = 0;
        let mut col: usize = 0;
        let mut points: Vec<Point> = Vec::new();
        for c in it: contents.chars()
            invariant
                it.seq() == contents@,
                contents@.len() <= isize::MAX,
                col == scan_col(contents@.take(it.index() as int)),
                row == scan_row(contents@.take(it.index() as int)),
                cells_of(points@) == scan_cells(contents@.take(it.index() as int)),
        {
            proof {
                assert(contents@.take(it.index() + 1).drop_last() == contents@.take(
                    it.index() as int,
                ));
                lemma_scan_bounds(contents@.take(it.index() as int));
            }
            if c == 'x' {
                points.push(Point::from(&col, &row));
                col += 1;
            } else if c == '\n' {
                row += 1;
                col = 0;
            } else {
                col += 1;
            }
            assert(cells_of(points@) =~= scan_cells(contents@.take(it.index() + 1)));
        }
        let mut tile = Tile { name: name.to_owned(), points: points };
        proof {
            assert(contents@.take(contents@.len() as int) == contents@);
            lemma_scan_bounds(contents@);
            lemma_scan_distinct(contents@);
            assert forall|i: int| 0 <= i < tile.points.len() implies 0 <= (
            #[trigger] tile.points[i]).x < isize::MAX && 0 <= tile.points[i].y < isize::MAX by {
                assert(tile.cells()[i] == scan_cells(contents@)[i]);
            }
        }
        if tile.points.len() > 0 {
            let o = tile.offset();
            proof {
                lemma_min_x(tile.cells());
                lemma_min_y(tile.cells());
                let kx = choose|i: int|
                    0 <= i < tile.cells().len() && (#[trigger] tile.cells()[i]).0 == min_x(
                        tile.cells(),
                    );
                let ky = choose|i: int|
                    0 <= i < tile.cells().len() && (#[trigger] tile.cells()[i]).1 == min_y(
                        tile.cells(),
                    );
                assert(tile.cells()[kx] == tile.points[kx]@);
                assert(tile.cells()[ky] == tile.points[ky]@);
                assert forall|i: int| 0 <= i < tile.points.len() implies o.x <= (
                #[trigger] tile.points[i]).x && o.y <= tile.points[i].y by {
                    assert(tile.cells()[i] == tile.points[i]@);
                }
            }
            let back = Point { x: -o.x, y: -o.y };
            tile.translate(&back);
            proof {
                assert(tile.cells() =~= anchored(scan_cells(contents@)));
                assert forall|i: int, j: int|
                    0 <= i < tile.cells().len() && 0 <= j < tile.cells().len() && i
                        != j implies tile.cells()[i] != tile.cells()[j] by {
                    assert(scan_cells(contents@)[i] != scan_cells(contents@)[j]);
                }
                assert forall|i: int, j: int|
                    0 <= i < tile.points.len() && 0 <= j < tile.points.len() implies (
                #[trigger] tile.points[i]).x - (#[trigger] tile.points[j]).x < isize::MAX
                    && tile.points[i].y - tile.points[j].y < isize::MAX by {
                    assert(tile.cells()[i] == tile.points[i]@);
                    assert(tile.cells()[j] == tile.points[j]@);
                }
                let c = tile.cells();
                assert forall|i: int| 0 <= i < c.len() implies isize::MIN < (#[trigger] c[i]).0
                    <= isize::MAX && isize::MIN < c[i].1 <= isize::MAX by {
                    assert(c[i] == tile.points[i]@);
                    assert(scan_cells(contents@)[i].0 >= 0);
                }
                assert forall|i: int, j: int| 0 <= i < c.len() && 0 <= j < c.len() implies (
                #[trigger] c[i]).0 - (#[trigger] c[j]).0 < isize::MAX && c[i].1 - c[j].1
                    < isize::MAX by {
                    assert(c[i] == tile.points[i]@ && c[j] == tile.points[j]@);
                    assert(tile.points[i].x - tile.points[j].x < isize::MAX);
                }
            }
        } else {
            assert(tile.cells() =~= anchored(scan_cells(contents@)));
        }
        proof {
            assert forall|i: int| 0 <= i < tile.points@.len() implies (#[trigger] tile.points[i]).x
                >= 0 && tile.points[i].y >= 0 by {
                assert(tile.cells()[i] == tile.points[i]@);
                assert(anchored(scan_cells(contents@))[i].0 >= 0);
            }
        }
        tile
    }

    /// The number of cells.
    pub fn len(&self) -> (n: usize)
        ensures
            n == self.points@.len(),
    {
        self.points.len()
    }

    /// Reflects the tile across the y-axis.
    pub fn mirror(&mut self)
        requires
            forall|i: int|
                0 <= i < old(self).points.len() ==> (#[trigger] old(self).points[i]).x
                    > isize::MIN,
        ensures
            final(self).name == old(self).name,
            final(self).cells() == mirrored(old(self).cells()),
    {
        let n = self.points.len();
        let mut i: usize = 0;
        while i < n
            invariant
                i <= n,
                n == self.points.len(),
                self.points.len() == old(self).points.len(),
                self.name == old(self).name,
                forall|k: int|
                    0 <= k < old(self).points.len() ==> (#[trigger] old(self).points[k]).x
                        > isize::MIN,
                forall|k: int| 0 <= k < i ==> (#[trigger] self.points[k])@ == (
                    -old(self).points[k].x,
                    old(self).points[k].y as int,
                ),
                forall|k: int| i <= k < n ==> #[trigger] self.points[k] == old(self).points[k],
            decreases n - i,
        {
            let p = self.points[i];
            assert(p == old(self).points[i as int]);
            self.points[i] = Point { x: -p.x, y: p.y };
            i += 1;
        }
        assert(self.cells() =~= mirrored(old(self).cells()));
    }

    /// Turns the tile a quarter turn counter-clockwise.
    pub fn rotate(&mut self)
        requires
            forall|i: int|
                0 <= i < old(self).points.len() ==> (#[trigger] old(self).points[i]).x
                    > isize::MIN,
        ensures
            final(self).name == old(self).name,
            final(self).cells() == rotated(old(self).cells()),
    {
        let n = self.points.len();
        let mut i: usize = 0;
        while i < n
            invariant
                i <= n,
                n == self.points.len(),
                self.points.len() == old(self).points.len(),
                self.name == old(self).name,
                forall|k: int|
                    0 <= k < old(self).points.len() ==> (#[trigger] old(self).points[k]).x
                        > isize::MIN,
                forall|k: int| 0 <= k < i ==> (#[trigger] self.points[k])@ == (
                    old(self).points[k].y as int,
                    -old(self).points[k].x,
                ),
                forall|k: int| i <= k < n ==> #[trigger] self.points[k] == old(self).points[k],
            decreases n - i,
        {
            let p = self.points[i];
            assert(p == old(self).points[i as int]);
            self.points[i] = Point { x: p.y, y: -p.x };
            i += 1;
        }
        assert(self.cells() =~= rotated(old(self).cells()));
    }

    /// Moves every cell by `offset`.
    pub fn translate(&mut self, offset: &Point)
        requires
            forall|i: int|
                0 <= i < old(self).points.len() ==> isize::MIN <= (
                #[trigger] old(self).points[i]).x + offset.x <= isize::MAX && isize::MIN <= old(
                    self,
                ).points[i].y + offset.y <= isize::MAX,
        ensures
            final(self).name == old(self).name,
            final(self).cells() == translated(
                old(self).cells(),
                offset.x as int,
                offset.y as int,
            ),
    {
        let n = self.points.len();
        let mut i: usize = 0;
        while i < n
            invariant
                i <= n,
                n == self.points.len(),
                self.points.len() == old(self).points.len(),
                self.name == old(self).name,
                forall|k: int|
                    0 <= k < old(self).points.len() ==> isize::MIN <= (
                    #[trigger] old(self).points[k]).x + offset.x <= isize::MAX && isize::MIN
                        <= old(self).points[k].y + offset.y <= isize::MAX,
                forall|k: int| 0 <= k < i ==> (#[trigger] self.points[k])@ == (
                    old(self).points[k].x + offset.x,
                    old(self).points[k].y + offset.y,
                ),
                forall|k: int| i <= k < n ==> #[trigger] self.points[k] == old(self).points[k],
            decreases n - i,
        {
            let p = self.points[i];
            assert(p == old(self).points[i as int]);
            self.points[i] = Point { x: p.x + offset.x, y: p.y + offset.y };
            i += 1;
        }
        assert(self.cells() =~= translated(old(self).cells(), offset.x as int, offset.y as int));
    }

    /// The top left corner of the bounding box.
    pub fn offset(&self) -> (p: Point)
        requires
            self.points.len() > 0,
        ensures
            p@ == (min_x(self.cells()), min_y(self.cells())),
    {
        let mut x: isize = self.points[0].x;
        let mut y: isize = self.points[0].y;
        let n = self.points.len();
        let mut i: usize = 1;
        assert(self.cells().take(1) =~= seq![self.points[0]@]);
        while i < n
            invariant
                1 <= i <= n,
                n == self.points.len(),
                x == min_x(self.cells().take(i as int)),
                y == min_y(self.cells().take(i as int)),
            decreases n - i,
        {
            let p = self.points[i];
            proof {
                assert(self.cells().take(i + 1).drop_last() == self.cells().take(i as int));
                assert(self.cells().take(i + 1).last() == p@);
            }
            if p.x < x {
                x = p.x;
            }
            if p.y < y {
                y = p.y;
            }
            i += 1;
        }
        assert(self.cells().take(n as int) == self.cells());
        Point::new(x, y)
    }

    /// Brings the tile into its canonical form: the bounding box starts at
    /// the origin and the cells stand in lexicographic order.
    pub fn normalize(&mut self)
        requires
            old(self).spans_fit(),
        ensures
            final(self).name == old(self).name,
            final(self).cells() == normalized(old(self).cells()),
            final(self).points.len() == old(self).points.len(),
    {
        proof {
            crate::cells::lemma_sorted(anchored(self.cells()));
        }
        if self.points.len() == 0 {
            assert(self.cells() =~= normalized(self.cells()));
            return ;
        }
        let o = self.offset();
        let n = self.points.len();
        let mut moved: Vec<Point> = Vec::new();
        let mut i: usize = 0;
        proof {
            lemma_min_x(self.cells());
            lemma_min_y(self.cells());
            let kx = choose|i: int|
                0 <= i < self.cells().len() && (#[trigger] self.cells()[i]).0 == min_x(
                    self.cells(),
                );
            let ky = choose|i: int|
                0 <= i < self.cells().len() && (#[trigger] self.cells()[i]).1 == min_y(
                    self.cells(),
                );
            assert(self.cells()[kx] == self.points[kx]@);
            assert(self.cells()[ky] == self.points[ky]@);
            assert forall|i: int| 0 <= i < self.points.len() implies 0 <= (
            #[trigger] self.points[i]).x - o.x < isize::MAX && 0 <= self.points[i].y - o.y
                < isize::MAX by {
                assert(self.cells()[i] == self.points[i]@);
                assert(self.points[i].x - self.points[kx].x < isize::MAX);
                assert(self.points[i].y - self.points[ky].y < isize::MAX);
            }
        }
        while i < n
            invariant
                i <= n,
                n == self.points.len(),
                moved.len() == i,
                forall|k: int|
                    0 <= k < self.points.len() ==> 0 <= (#[trigger] self.points[k]).x - o.x
                        < isize::MAX && 0 <= self.points[k].y - o.y < isize::MAX,
                forall|k: int|
                    0 <= k < i ==> (#[trigger] moved[k])@ == (
                        self.points[k].x - o.x,
                        self.points[k].y - o.y,
                    ),
            decreases n - i,
        {
            let p = self.points[i];
            moved.push(Point { x: p.x - o.x, y: p.y - o.y });
            i += 1;
        }
        assert(cells_of(moved@) =~= anchored(self.cells()));
        self.points = sorted_points(&moved);
    }

    /// The position of the first point equal to `point`, if there is one.
    pub fn index(&self, point: &Point) -> (r: Option<usize>)
        ensures
            match r {
                Some(i) => i < self.points.len() && self.points[i as int] == *point && forall|
                    k: int,
                | 0 <= k < i ==> self.points[k] != *point,
                None => forall|k: int| 0 <= k < self.points.len() ==> self.points[k] != *point,
            },
    {
        let n = self.points.len();
        let mut i: usize = 0;
        while i < n
            invariant
                i <= n,
                n == self.points.len(),
                forall|k: int| 0 <= k < i ==> self.points[k] != *point,
            decreases n - i,
        {
            let p = self.points[i];
            if p.x == point.x && p.y == point.y {
                return Some(i);
            }
            i += 1;
        }
        None
    }

    /// Width and height of the bounding box; both 0 for a tile without cells.
    pub fn size(&self) -> (s: Size)
        requires
            self.spans_fit(),
        ensures
            s.width == width(self.cells()),
            s.height == height(self.cells()),
    {
        if self.points.len() == 0 {
            return Size { width: 0, height: 0 };
        }
        let mut xmin = self.points[0].x;
        let mut xmax = xmin;
        let mut ymin = self.points[0].y;
        let mut ymax = ymin;
        let n = self.points.len();
        let mut i: usize = 1;
        assert(self.cells().take(1) =~= seq![self.points[0]@]);
        while i < n
            invariant
                1 <= i <= n,
                n == self.points.len(),
                xmin == min_x(self.cells().take(i as int)),
                ymin == min_y(self.cells().take(i as int)),
                xmax == max_x(self.cells().take(i as int)),
                ymax == max_y(self.cells().take(i as int)),
            decreases n - i,
        {
            let p = self.points[i];
            proof {
                assert(self.cells().take(i + 1).drop_last() == self.cells().take(i as int));
                assert(self.cells().take(i + 1).last() == p@);
            }
            if p.x > xmax {
                xmax = p.x;
            }
            if p.x < xmin {
                xmin = p.x;
            }
            if p.y > ymax {
                ymax = p.y;
            }
            if p.y < ymin {
                ymin = p.y;
            }
            i += 1;
        }
        proof {
            assert(self.cells().take(n as int) == self.cells());
            self.lemma_box_fits();
        }
        Size { width: (xmax - xmin + 1) as usize, height: (ymax - ymin + 1) as usize }
    }
}

} // verus!
