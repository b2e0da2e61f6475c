//! The puzzle: a board and pieces, the matrix of their placements, and the
//! tilings read back from the covers of that matrix.
use vstd::prelude::*;
use crate::cells::{height, lemma_insert_adds_one, width};
use crate::dlx::{Matrix, Phase};
use crate::exact::{as_ints, Incidence};
use crate::geometry::Point;
use crate::parser::{lemma_parsed_bounds, parse, parsed};
use crate::ring::{count_in, lemma_count_same};
use crate::placing::{
    ascending, ascending_of, cells_lt, columns_at, entries, entries_ok, fits, index_of, inserted,
    is_variant,
    lemma_ascending_is, lemma_entries, lemma_entries_ok, lemma_index_of, lemma_oriented_order,
    lemma_origin, lemma_placed_next_line, lemma_row_at, lemma_rows_shaped,
    lemma_same_columns_same_placement, lemma_tidy_moves, lemma_tidy_normalized,
    lemma_tidy_variant, moved, orbit_into, oriented_lt, origin, origin_lt, placed, rank, rising,
    row_at, rows_upto, shaped, tidy, variant, Oriented,
};
use crate::text::{chars_equal, chars_of};
use crate::tile::{cells_of, point_lt, Tile};

verus! {

/// A piece in one of its orientations.
pub struct Entry {
    pub points: Vec<Point>,
    pub index: usize,
}

impl View for Entry {
    type V = Oriented;

    /// The orientation that the entry stands for.
    open spec fn view(&self) -> Oriented {
        Oriented { cells: cells_of(self.points@), index: self.index as int }
    }
}

/// The orientations that a list of entries stands for.
pub open spec fn views(list: Seq<Entry>) -> Seq<Oriented> {
    Seq::new(list.len(), |i: int| list[i]@)
}

/// Whether the list of points `a` stands before the list `b`.
pub fn points_less(a: &Vec<Point>, b: &Vec<Point>) -> (r: bool)
    ensures
        r == cells_lt(cells_of(a@), cells_of(b@)),
{
    let ghost ca = cells_of(a@);
    let ghost cb = cells_of(b@);
    let mut i: usize = 0;
    assert(ca.skip(0) =~= ca && cb.skip(0) =~= cb);
    while i < a.len() && i < b.len()
        invariant
            i <= a.len(),
            i <= b.len(),
            ca == cells_of(a@),
            cb == cells_of(b@),
            cells_lt(ca, cb) == cells_lt(ca.skip(i as int), cb.skip(i as int)),
        decreases a.len() - i,
    {
        let x = a[i];
        let y = b[i];
        assert(ca.skip(i as int)[0] == x@ && cb.skip(i as int)[0] == y@);
        if x.x != y.x || x.y != y.y {
            return point_lt(&x, &y);
        }
        assert(ca.skip(i as int).drop_first() =~= ca.skip(i + 1));
        assert(cb.skip(i as int).drop_first() =~= cb.skip(i + 1));
        i += 1;
    }
    i < b.len()
}

/// Whether two lists of points are the same.
pub fn points_equal(a: &Vec<Point>, b: &Vec<Point>) -> (r: bool)
    ensures
        r == (cells_of(a@) == cells_of(b@)),
{
    if a.len() != b.len() {
        assert(cells_of(a@).len() != cells_of(b@).len());
        return false;
    }
    let mut i: usize = 0;
    while i < a.len()
        invariant
            i <= a.len(),
            a.len() == b.len(),
            forall|k: int| 0 <= k < i ==> a[k]@ == b[k]@,
        decreases a.len() - i,
    {
        if a[i].x != b[i].x || a[i].y != b[i].y {
            assert(cells_of(a@)[i as int] != cells_of(b@)[i as int]);
            return false;
        }
        i += 1;
    }
    assert(cells_of(a@) =~= cells_of(b@));
    true
}

/// Whether entry `a` stands before entry `b`.
pub fn entry_less(a: &Entry, b: &Entry) -> (r: bool)
    ensures
        r == oriented_lt(a@, b@),
{
    a.index < b.index || (a.index == b.index && points_less(&a.points, &b.points))
}

/// Whether two entries are the same.
pub fn entry_equal(a: &Entry, b: &Entry) -> (r: bool)
    ensures
        r == (a@ == b@),
{
    points_equal(&a.points, &b.points) && a.index == b.index
}

/// Puts `e` into the list at its rank, unless it stands there already.
pub fn insert_entry(list: &mut Vec<Entry>, e: Entry)
    ensures
        views(final(list)@) == inserted(views(old(list)@), e@),
{
    let ghost before = views(list@);
    let n = list.len();
    let mut k: usize = 0;
    assert(before.skip(0) =~= before);
    while k < n && entry_less(&list[k], &e)
        invariant
            k <= n,
            n == list.len(),
            list@ == old(list)@,
            before == views(list@),
            rank(before, e@) == k + rank(before.skip(k as int), e@),
        decreases n - k,
    {
        assert(before.skip(k as int)[0] == list[k as int]@);
        assert(before.skip(k as int).drop_first() =~= before.skip(k + 1));
        k += 1;
    }
    proof {
        if k < n {
            assert(before.skip(k as int)[0] == list[k as int]@);
        }
        assert(rank(before, e@) == k);
    }
    if k < n && entry_equal(&list[k], &e) {
        return ;
    }
    let ghost ev = e@;
    list.insert(k, e);
    assert(views(list@) =~= before.insert(k as int, ev));
}

/// Puts the orientations of `tile`, the piece at place `index`, into the
/// list.
pub fn orbit(list: &mut Vec<Entry>, tile: &Tile, index: usize)
    requires
        tile.tidy(),
    ensures
        views(final(list)@) == orbit_into(
            views(old(list)@),
            tile.cells(),
            index as int,
            8,
        ),
{
    let mut t = tile.copy();
    let mut o: usize = 0;
    assert(t.cells() =~= tile.cells());
    while o < 8
        invariant
            o <= 8,
            t.tidy(),
            o == 0 ==> t.cells() == tile.cells(),
            o > 0 ==> t.cells() == variant(tile.cells(), o - 1),
            views(list@) == orbit_into(
                views(old(list)@),
                tile.cells(),
                index as int,
                o as int,
            ),
        decreases 8 - o,
    {
        proof {
            t.lemma_tidy();
            lemma_tidy_moves(t.cells());
        }
        if o == 4 {
            t.mirror();
        } else {
            t.rotate();
        }
        proof {
            t.lemma_tidy();
            lemma_tidy_normalized(t.cells());
        }
        t.normalize();
        let e = Entry { points: t.copy().points, index: index };
        proof {
            assert(e@.cells == variant(tile.cells(), o as int));
        }
        insert_entry(list, e);
        o += 1;
    }
}

/// The row of the placement of `e` with its origin at (dx, dy), if every
/// cell of it is then a cell of the board.
pub fn place(board: &Tile, e: &Entry, dx: usize, dy: usize) -> (r: Option<Vec<usize>>)
    requires
        dx <= isize::MAX,
        dy <= isize::MAX,
        board.points.len() + e.index <= usize::MAX,
    ensures
        r is Some <==> fits(board.cells(), e@.cells, dx as int, dy as int),
        r is Some ==> as_ints(r->0@) == row_at(board.cells(), e@, dx as int, dy as int),
{
    let ghost bc = board.cells();
    let ghost ec = e@.cells;
    let mut cols: Vec<usize> = Vec::new();
    let n = e.points.len();
    let mut i: usize = 0;
    while i < n
        invariant
            i <= n,
            n == e.points.len(),
            bc == board.cells(),
            ec == e@.cells,
            dx <= isize::MAX,
            dy <= isize::MAX,
            cols.len() == i,
            forall|k: int|
                0 <= k < i ==> bc.contains(#[trigger] moved(ec, dx as int, dy as int, k)) && cols[k]
                    == index_of(bc, moved(ec, dx as int, dy as int, k)),
        decreases n - i,
    {
        let p = e.points[i];
        let ghost c = moved(ec, dx as int, dy as int, i as int);
        proof {
            assert(ec[i as int] == p@);
            lemma_index_of(bc, c);
            if bc.contains(c) {
                let k = choose|k: int| 0 <= k < bc.len() && bc[k] == c;
                assert(bc[k] == board.points[k]@);
            }
        }
        if p.x > isize::MAX - (dx as isize) || p.y > isize::MAX - (dy as isize) {
            return None;
        }
        let q = Point { x: p.x + (dx as isize), y: p.y + (dy as isize) };
        match board.index(&q) {
            None => {
                proof {
                    if bc.contains(c) {
                        let k = choose|k: int| 0 <= k < bc.len() && bc[k] == c;
                        assert(board.points[k] == q);
                    }
                }
                return None;
            },
            Some(k) => {
                proof {
                    assert(bc[k as int] == c);
                    assert forall|j: int| 0 <= j < k implies bc[j] != c by {
                        assert(board.points[j] != q);
                    }
                    lemma_first_is(bc, c, k as int);
                }
                cols.push(k);
            },
        }
        i += 1;
    }
    assert(as_ints(cols@) =~= columns_at(bc, ec, dx as int, dy as int));
    let mut row = sorted_ids(&cols);
    let ghost cells_part = as_ints(row@);
    row.push(board.points.len() + e.index);
    assert(as_ints(row@) =~= cells_part.push(bc.len() + e@.index));
    Some(row)
}

/// The first place at which a cell stands is its index.
pub proof fn lemma_first_is(board: Seq<(int, int)>, c: (int, int), k: int)
    requires
        0 <= k < board.len(),
        board[k] == c,
        forall|j: int| 0 <= j < k ==> board[j] != c,
    ensures
        index_of(board, c) == k,
{
    lemma_index_of(board, c);
    let i = index_of(board, c);
    if i < k {
        assert(board.contains(c));
    }
}

/// The numbers in ascending order.
pub fn sorted_ids(v: &Vec<usize>) -> (out: Vec<usize>)
    ensures
        as_ints(out@) == ascending_of(as_ints(v@)),
{
    let ghost src = as_ints(v@);
    let mut out: Vec<usize> = Vec::new();
    let n = v.len();
    let mut i: usize = 0;
    assert(src.take(0) =~= as_ints(out@));
    while i < n
        invariant
            i <= n,
            n == v.len(),
            src == as_ints(v@),
            out.len() == i,
            as_ints(out@).to_multiset() == src.take(i as int).to_multiset(),
            ascending(as_ints(out@)),
        decreases n - i,
    {
        let x = v[i];
        let m = out.len();
        let mut k: usize = 0;
        while k < m && out[k] < x
            invariant
                k <= m,
                m == out.len(),
                forall|a: int| 0 <= a < k ==> out[a] < x,
            decreases m - k,
        {
            k += 1;
        }
        let ghost before = as_ints(out@);
        proof {
            lemma_insert_adds_one(before, k as int, x as int);
            vstd::seq_lib::to_multiset_build(src.take(i as int), x as int);
            assert(src.take(i + 1) =~= src.take(i as int).push(x as int));
        }
        out.insert(k, x);
        proof {
            let after = as_ints(out@);
            assert(after =~= before.insert(k as int, x as int));
            assert forall|a: int, b: int| 0 <= a < b < after.len() implies after[a] <= after[b] by {
                let a0 = if a < k { a } else { a - 1 };
                let b0 = if b < k { b } else { b - 1 };
                if a != k && b != k {
                    assert(before[a0] <= before[b0]);
                } else if a == k {
                    assert(before[k as int] <= before[b0]);
                }
            }
        }
        i += 1;
    }
    proof {
        assert(src.take(n as int) =~= src);
        lemma_ascending_is(src, as_ints(out@));
    }
    out
}

/// The cells of a row: all its columns but the last.
pub open spec fn cells_part(row: Seq<int>) -> Seq<int> {
    row.take(row.len() - 1)
}

/// The piece that lies on cell `c` once the first `k` rows of a selection
/// are laid out: that of the last of them that covers `c`; piece 0 where
/// none does.
pub open spec fn piece_on(pb: Incidence, n: int, ids: Seq<int>, c: int, k: int) -> int
    decreases k,
{
    if k <= 0 {
        0
    } else {
        let row = pb.rows[ids[k - 1]];
        if cells_part(row).contains(c) {
            row.last() - n
        } else {
            piece_on(pb, n, ids, c, k - 1)
        }
    }
}

/// The key under which a document holds the board.
pub open spec fn is_board(key: Seq<char>) -> bool {
    key == "Board"@
}

/// The pieces among the first `k` entries of a document: those whose key
/// is not that of the board, in order.
pub open spec fn pieces_of(parts: Seq<(Seq<char>, Seq<char>)>, k: int) -> Seq<
    (Seq<char>, Seq<char>),
>
    decreases k,
{
    if k <= 0 {
        Seq::empty()
    } else if is_board(parts[k - 1].0) {
        pieces_of(parts, k - 1)
    } else {
        pieces_of(parts, k - 1).push(parts[k - 1])
    }
}

/// The drawing of the board among the first `k` entries of a document:
/// the last one under the key of the board, if there is one.
pub open spec fn board_of(parts: Seq<(Seq<char>, Seq<char>)>, k: int) -> Option<Seq<char>>
    decreases k,
{
    if k <= 0 {
        None
    } else if is_board(parts[k - 1].0) {
        Some(parts[k - 1].1)
    } else {
        board_of(parts, k - 1)
    }
}

/// The piece on a cell is that of the one selected row that covers it.
pub proof fn lemma_piece_on(pb: Incidence, n: int, sel: Seq<int>, c: int, i: int, k: int)
    requires
        pb.disjoint(sel),
        forall|r: int| 0 <= r < pb.rows.len() ==> shaped(#[trigger] pb.rows[r], n),
        0 <= c < n,
        0 <= i < sel.len(),
        pb.hits(sel[i], c),
        0 <= k <= sel.len(),
    ensures
        piece_on(pb, n, sel, c, k) == if k > i { pb.rows[sel[i]].last() - n } else { 0 },
    decreases k,
{
    if k > 0 {
        lemma_piece_on(pb, n, sel, c, i, k - 1);
        let row = pb.rows[sel[k - 1]];
        assert(shaped(row, n));
        if cells_part(row).contains(c) {
            let t = choose|t: int| 0 <= t < cells_part(row).len() && cells_part(row)[t] == c;
            assert(row[t] == c);
            assert(pb.hits(sel[k - 1], c));
            assert(pb.hits(sel[i], c));
        } else if k - 1 == i {
            let t = choose|t: int| 0 <= t < row.len() && row[t] == c;
            assert(t < row.len() - 1);
            assert(cells_part(row)[t] == c);
        }
    }
}

/// One of the selected rows places piece `p`: it ends with the column of
/// the piece.
pub open spec fn places(pb: Incidence, n: int, sel: Seq<int>, p: int) -> bool {
    exists|i: int| 0 <= i < sel.len() && (#[trigger] pb.rows[sel[i]]).last() == n + p
}

/// The cells on which piece `p` lies in the colouring of a selection.
pub open spec fn lies_on(pb: Incidence, n: int, sel: Seq<int>, p: int) -> spec_fn(int) -> bool {
    |c: int| piece_on(pb, n, sel, c, sel.len() as int) == p
}

/// The numbers that a list holds.
pub open spec fn held_by(t: Seq<int>) -> spec_fn(int) -> bool {
    |c: int| t.contains(c)
}

/// A list of numbers below `n` in strictly ascending order holds as many
/// numbers below `n` as it is long.
pub proof fn lemma_count_held(t: Seq<int>, n: int)
    requires
        rising(t),
        forall|i: int| 0 <= i < t.len() ==> 0 <= #[trigger] t[i] < n,
    ensures
        count_in(held_by(t), 0, n) == t.len(),
    decreases t.len(),
{
    if t.len() == 0 {
        crate::ring::lemma_count_few(held_by(t), 0, n, 0);
    } else {
        let s = t.drop_last();
        let x = t.last();
        assert forall|i: int, j: int| 0 <= i < j < s.len() implies s[i] < s[j] by {
            assert(t[i] < t[j]);
        }
        assert forall|i: int| 0 <= i < s.len() implies 0 <= #[trigger] s[i] < n by {
            assert(s[i] == t[i]);
        }
        lemma_count_held(s, n);
        assert(held_by(t)(x)) by {
            assert(t[t.len() - 1] == x);
        }
        assert(!held_by(s)(x)) by {
            if s.contains(x) {
                let i = choose|i: int| 0 <= i < s.len() && s[i] == x;
                assert(t[i] < t[t.len() - 1]);
            }
        }
        assert forall|c: int| 0 <= c < n && c != x implies #[trigger] held_by(t)(c) == held_by(s)(
            c,
        ) by {
            if t.contains(c) {
                let i = choose|i: int| 0 <= i < t.len() && t[i] == c;
                assert(s[i] == c);
            }
            if s.contains(c) {
                let i = choose|i: int| 0 <= i < s.len() && s[i] == c;
                assert(t[i] == c);
            }
        }
        crate::ring::lemma_count_less_one(held_by(t), held_by(s), 0, n, x);
    }
}

/// A board and the pieces to lay on it.
pub struct Game {
    pub board: Tile,
    pub tiles: Vec<Tile>,
}

impl Game {
    /// The shapes of the pieces: the cells of each.
    pub open spec fn shapes(&self) -> Seq<Seq<(int, int)>> {
        Seq::new(self.tiles@.len(), |i: int| self.tiles[i].cells())
    }

    /// The distinct orientations of all pieces, in order.
    pub open spec fn orientations(&self) -> Seq<Oriented> {
        entries(self.shapes(), self.tiles@.len() as int)
    }

    /// The matrix of the puzzle: a column for each cell of the board and
    /// for each piece; a row for each placement of an orientation within
    /// the board.
    pub open spec fn incidence(&self) -> Incidence {
        Incidence {
            n: (self.board.points@.len() + self.tiles@.len()) as int,
            rows: rows_upto(
                self.board.cells(),
                self.orientations(),
                width(self.board.cells()),
                height(self.board.cells()),
                self.orientations().len() as int,
            ),
        }
    }

    /// The board can be measured, the pieces are tidy, and the cells and the
    /// pieces together can be numbered.
    pub open spec fn valid(&self) -> bool {
        &&& self.board.spans_fit()
        &&& forall|i: int| 0 <= i < self.tiles@.len() ==> (#[trigger] self.tiles[i]).tidy()
        &&& self.board.points@.len() + self.tiles@.len() < usize::MAX
    }

    /// The number of cells of the board.
    pub fn len(&self) -> (n: usize)
        ensures
            n == self.board.points@.len(),
    {
        self.board.points.len()
    }

    /// Every row of the matrix of the puzzle is a placement: the columns of
    /// cells of the board in strictly ascending order, as many as the piece
    /// has cells, and then, last and greatest, the column of the piece.
    pub proof fn lemma_rows_are_placements(&self, k: int)
        requires
            self.valid(),
            0 <= k < self.incidence().rows.len(),
        ensures
            shaped(self.incidence().rows[k], self.board.points@.len() as int),
            rising(self.incidence().rows[k]),
            self.incidence().rows[k].last() < self.board.points@.len() + self.tiles@.len(),
            self.incidence().rows[k].len() == self.tiles[self.incidence().rows[k].last()
                - self.board.points@.len()].points@.len() + 1,
    {
        let shapes = self.shapes();
        let es = self.orientations();
        let bc = self.board.cells();
        self.board.lemma_box_fits();
        lemma_origin(bc, es, width(bc), height(bc), es.len() as int, k);
        let at = origin(bc, es, width(bc), height(bc), es.len() as int, k);
        let e = es[at.0];
        lemma_entries(shapes, self.tiles@.len() as int);
        assert(es.contains(e));
        let i = choose|i: int|
            0 <= i < self.tiles@.len() && #[trigger] is_variant(e, shapes[i], i, 8);
        let o = choose|o: int|
            0 <= o < 8 && e == (Oriented { cells: #[trigger] variant(shapes[i], o), index: i });
        assert(self.tiles[i].tidy());
        lemma_tidy_variant(shapes[i], o);
        assert forall|i: int| 0 <= i < shapes.len() implies tidy(#[trigger] shapes[i]) by {
            assert(self.tiles[i].tidy());
        }
        lemma_entries_ok(shapes, self.tiles@.len() as int);
        lemma_row_at(bc, e, at.1, at.2, self.tiles@.len() as int);
        lemma_rows_shaped(
            bc,
            es,
            width(bc),
            height(bc),
            es.len() as int,
            self.tiles@.len() as int,
            k,
        );
    }

    /// The rows of the matrix stand in the order of their origins: piece by
    /// piece; for each piece its distinct orientations in the order of their
    /// cells; for each orientation the anchors line by line from the top,
    /// each line from left to right.
    pub proof fn lemma_rows_in_order(&self, j: int, k: int)
        requires
            self.valid(),
            0 <= j < k < self.incidence().rows.len(),
        ensures
            ({
                let bc = self.board.cells();
                let es = self.orientations();
                let a = origin(bc, es, width(bc), height(bc), es.len() as int, j);
                let b = origin(bc, es, width(bc), height(bc), es.len() as int, k);
                &&& origin_lt(a, b)
                &&& 0 <= a.0 <= b.0 < es.len()
                &&& es[a.0].index <= es[b.0].index
                &&& a.0 < b.0 ==> oriented_lt(es[a.0], es[b.0])
            }),
    {
        let bc = self.board.cells();
        let es = self.orientations();
        self.board.lemma_box_fits();
        lemma_origin(bc, es, width(bc), height(bc), es.len() as int, k);
        lemma_origin(bc, es, width(bc), height(bc), es.len() as int, j);
        lemma_entries(self.shapes(), self.tiles@.len() as int);
        let a = origin(bc, es, width(bc), height(bc), es.len() as int, j);
        let b = origin(bc, es, width(bc), height(bc), es.len() as int, k);
        if a.0 < b.0 {
            assert(oriented_lt(es[a.0], es[b.0]));
        }
    }

    /// One row stands before another exactly if its origin stands before
    /// the other's.
    pub proof fn lemma_row_order_is_origin_order(&self, j: int, k: int)
        requires
            self.valid(),
            0 <= j < self.incidence().rows.len(),
            0 <= k < self.incidence().rows.len(),
        ensures
            ({
                let bc = self.board.cells();
                let es = self.orientations();
                j < k <==> origin_lt(
                    origin(bc, es, width(bc), height(bc), es.len() as int, j),
                    origin(bc, es, width(bc), height(bc), es.len() as int, k),
                )
            }),
    {
        if j < k {
            self.lemma_rows_in_order(j, k);
        } else if k < j {
            self.lemma_rows_in_order(k, j);
        }
    }

    /// Every orientation from which rows are made is one of a piece, tidy
    /// and in canonical form, with as many cells as the piece.
    pub proof fn lemma_orientation(&self, a: int)
        requires
            self.valid(),
            0 <= a < self.orientations().len(),
        ensures
            0 <= self.orientations()[a].index < self.tiles@.len(),
            tidy(self.orientations()[a].cells),
            crate::placing::canonical(self.orientations()[a].cells),
            self.orientations()[a].cells.len() == self.tiles[self.orientations()[a]
                .index].points@.len(),
    {
        let shapes = self.shapes();
        let es = self.orientations();
        let e = es[a];
        lemma_entries(shapes, self.tiles@.len() as int);
        assert(es.contains(e));
        let i = choose|i: int|
            0 <= i < self.tiles@.len() && #[trigger] is_variant(e, shapes[i], i, 8);
        let o = choose|o: int|
            0 <= o < 8 && e == (Oriented { cells: #[trigger] variant(shapes[i], o), index: i });
        assert(self.tiles[i].tidy());
        lemma_tidy_variant(shapes[i], o);
    }

    /// No two rows of the matrix hold the same columns, where every piece
    /// has a cell.
    pub proof fn lemma_rows_differ(&self, j: int, k: int)
        requires
            self.valid(),
            forall|i: int|
                0 <= i < self.tiles@.len() ==> (#[trigger] self.tiles[i]).points@.len() > 0,
            0 <= j < k < self.incidence().rows.len(),
        ensures
            !(forall|c: int|
                self.incidence().rows[j].contains(c) <==> self.incidence().rows[k].contains(c)),
            self.incidence().rows[j] != self.incidence().rows[k],
    {
        let bc = self.board.cells();
        let es = self.orientations();
        let w = width(bc);
        let h = height(bc);
        self.board.lemma_box_fits();
        lemma_origin(bc, es, w, h, es.len() as int, j);
        lemma_origin(bc, es, w, h, es.len() as int, k);
        let a = origin(bc, es, w, h, es.len() as int, j);
        let b = origin(bc, es, w, h, es.len() as int, k);
        self.lemma_orientation(a.0);
        self.lemma_orientation(b.0);
        lemma_entries(self.shapes(), self.tiles@.len() as int);
        if forall|c: int|
            self.incidence().rows[j].contains(c) <==> self.incidence().rows[k].contains(c) {
            lemma_same_columns_same_placement(
                bc,
                es[a.0],
                es[b.0],
                (a.1, a.2),
                (b.1, b.2),
                self.tiles@.len() as int,
            );
            lemma_oriented_order(es[a.0], es[a.0]);
            assert(origin_lt(a, b));
            assert(false);
        }
    }

    /// Read as a colouring, an exact cover gives every cell of the board
    /// the piece of the one row of the cover that covers the cell, and that
    /// is one of the pieces.
    pub proof fn lemma_decode_of_cover(&self, cover: Seq<int>, c: int) -> (i: int)
        requires
            self.valid(),
            self.incidence().is_exact_cover(cover),
            0 <= c < self.board.points@.len(),
        ensures
            0 <= i < cover.len(),
            self.incidence().hits(cover[i], c),
            piece_on(
                self.incidence(),
                self.board.points@.len() as int,
                cover,
                c,
                cover.len() as int,
            ) == self.incidence().rows[cover[i]].last() - self.board.points@.len(),
            0 <= piece_on(
                self.incidence(),
                self.board.points@.len() as int,
                cover,
                c,
                cover.len() as int,
            ) < self.tiles@.len(),
    {
        let pb = self.incidence();
        assert(pb.covered(cover, c));
        let i = choose|i: int| 0 <= i < cover.len() && pb.hits(#[trigger] cover[i], c);
        assert forall|r: int| 0 <= r < pb.rows.len() implies shaped(
            #[trigger] pb.rows[r],
            self.board.points@.len() as int,
        ) by {
            self.lemma_rows_are_placements(r);
        }
        lemma_piece_on(pb, self.board.points@.len() as int, cover, c, i, cover.len() as int);
        self.lemma_rows_are_placements(cover[i]);
        i
    }

    /// An exact cover selects as many rows as there are pieces: for each
    /// piece the one row that places it.
    pub proof fn lemma_one_row_for_each_piece(&self, cover: Seq<int>)
        requires
            self.valid(),
            self.incidence().is_exact_cover(cover),
        ensures
            cover.len() == self.tiles@.len(),
            forall|p: int|
                0 <= p < self.tiles@.len() ==> #[trigger] places(
                    self.incidence(),
                    self.board.points@.len() as int,
                    cover,
                    p,
                ),
    {
        let pb = self.incidence();
        let n = self.board.points@.len() as int;
        let count = self.tiles@.len() as int;
        let pieces = Seq::new(cover.len(), |i: int| pb.rows[cover[i]].last() - n);
        assert forall|i: int| 0 <= i < cover.len() implies 0 <= #[trigger] pieces[i] < count
            && pb.hits(cover[i], n + pieces[i]) by {
            self.lemma_rows_are_placements(cover[i]);
            let row = pb.rows[cover[i]];
            assert(row[row.len() - 1] == n + pieces[i]);
        }
        assert forall|i: int, j: int|
            0 <= i < pieces.len() && 0 <= j < pieces.len() && i != j implies pieces[i]
            != pieces[j] by {
            assert(pb.hits(cover[i], n + pieces[i]));
            assert(pb.hits(cover[j], n + pieces[j]));
        }
        assert forall|p: int| 0 <= p < count implies #[trigger] places(pb, n, cover, p) by {
            assert(pb.covered(cover, n + p));
            let i = choose|i: int| 0 <= i < cover.len() && pb.hits(#[trigger] cover[i], n + p);
            self.lemma_rows_are_placements(cover[i]);
            let row = pb.rows[cover[i]];
            let t = choose|t: int| 0 <= t < row.len() && row[t] == n + p;
            if t < row.len() - 1 {
                assert(0 <= row[t] < n);
            }
            assert(pieces[i] == p);
        }
        pieces.unique_seq_to_set();
        assert(pieces.to_set() =~= vstd::set_lib::set_int_range(0, count)) by {
            assert forall|p: int| pieces.to_set().contains(p) <==> 0 <= p < count by {
                if 0 <= p < count {
                    assert(places(pb, n, cover, p));
                    let i = choose|i: int|
                        0 <= i < cover.len() && (#[trigger] pb.rows[cover[i]]).last() == n + p;
                    assert(pieces[i] == p);
                    assert(pieces.contains(p));
                }
                if pieces.contains(p) {
                    let i = choose|i: int| 0 <= i < pieces.len() && pieces[i] == p;
                    assert(0 <= pieces[i] < count);
                }
            }
        }
        vstd::set_lib::lemma_int_range(0, count);
    }

    /// Read as a colouring, an exact cover gives every piece as many cells
    /// of the board as the piece has.
    pub proof fn lemma_decode_counts(&self, cover: Seq<int>, p: int)
        requires
            self.valid(),
            self.incidence().is_exact_cover(cover),
            0 <= p < self.tiles@.len(),
        ensures
            count_in(
                lies_on(self.incidence(), self.board.points@.len() as int, cover, p),
                0,
                self.board.points@.len() as int,
            ) == self.tiles[p].points@.len(),
    {
        let pb = self.incidence();
        let n = self.board.points@.len() as int;
        assert(pb.covered(cover, n + p));
        let i = choose|i: int| 0 <= i < cover.len() && pb.hits(#[trigger] cover[i], n + p);
        let row = pb.rows[cover[i]];
        let cells = cells_part(row);
        self.lemma_rows_are_placements(cover[i]);
        assert(row[row.len() - 1] == n + p) by {
            let t = choose|t: int| 0 <= t < row.len() && row[t] == n + p;
            if t < row.len() - 1 {
                assert(0 <= row[t] < n);
            }
        }
        assert forall|r: int| 0 <= r < pb.rows.len() implies shaped(#[trigger] pb.rows[r], n) by {
            self.lemma_rows_are_placements(r);
        }
        assert forall|c: int| 0 <= c < n implies #[trigger] lies_on(pb, n, cover, p)(c) == held_by(
            cells,
        )(c) by {
            let j = self.lemma_decode_of_cover(cover, c);
            if cells.contains(c) {
                let t = choose|t: int| 0 <= t < cells.len() && cells[t] == c;
                assert(row[t] == c);
                assert(pb.hits(cover[i], c));
                assert(j == i);
            }
            if lies_on(pb, n, cover, p)(c) {
                self.lemma_rows_are_placements(cover[j]);
                let other = pb.rows[cover[j]];
                assert(other[other.len() - 1] == n + p);
                assert(pb.hits(cover[j], n + p));
                assert(j == i);
                let t = choose|t: int| 0 <= t < row.len() && row[t] == c;
                assert(t < row.len() - 1);
                assert(cells[t] == c);
            }
        }
        lemma_count_same(lies_on(pb, n, cover, p), held_by(cells), 0, n);
        assert forall|a: int, b: int| 0 <= a < b < cells.len() implies cells[a] < cells[b] by {
            assert(row[a] < row[b]);
        }
        assert forall|a: int| 0 <= a < cells.len() implies 0 <= #[trigger] cells[a] < n by {
            assert(cells[a] == row[a]);
        }
        lemma_count_held(cells, n);
    }

    /// Builds the matrix of the puzzle and finds all its covers, in the
    /// order in which the search finds them.  Each cover names its rows by
    /// their positions among the rows, in the order in which the search
    /// selected them.  The matrix comes back with every node linked as it
    /// was built.
    pub fn solve(&mut self) -> (r: (Matrix, Vec<Vec<usize>>))
        requires
            old(self).valid(),
        ensures
            *final(self) == *old(self),
            r.0.ready(),
            r.0.wf(),
            r.0.phase() == Phase::Exhausted,
            r.0.problem() == old(self).incidence(),
            r.0.log() == Seq::<int>::empty(),
            r.0.marks() == Seq::<int>::empty(),
            r.0.links() == r.0.built(),
            r.1.len() == old(self).incidence().solutions().len(),
            forall|k: int|
                0 <= k < r.1.len() ==> as_ints(#[trigger] r.1[k]@) == old(
                    self,
                ).incidence().solutions()[k],
            forall|k: int|
                0 <= k < r.1.len() ==> old(self).incidence().is_exact_cover(
                    #[trigger] old(self).incidence().solutions()[k],
                ),
            forall|k: int, i: int|
                0 <= k < r.1.len() && 0 <= i < r.1[k].len() ==> (#[trigger] r.1[k][i]) < old(
                    self,
                ).incidence().rows.len(),
    {
        let mut m = self.build_matrix();
        let ghost pb = m.problem();
        proof {
            m.lemma_found_bounded();
        }
        let found = m.all_solutions();
        proof {
            assert forall|k: int| 0 <= k < found.len() implies pb.is_exact_cover(
                #[trigger] pb.solutions()[k],
            ) by {
                pb.lemma_solutions_are_exact_covers(k);
            }
        }
        (m, found)
    }

    /// Reads a cover as a colouring of the board: for each cell the index
    /// of the piece that lies on it.
    pub fn decode(&self, m: &Matrix, solution: &Vec<usize>) -> (out: Vec<usize>)
        requires
            m.wf(),
            forall|r: int|
                0 <= r < m.problem().rows.len() ==> shaped(
                    #[trigger] m.problem().rows[r],
                    self.board.points@.len() as int,
                ),
            forall|i: int|
                0 <= i < solution.len() ==> (#[trigger] solution[i]) < m.problem().rows.len(),
        ensures
            out.len() == self.board.points@.len(),
            forall|c: int|
                0 <= c < out.len() ==> #[trigger] out[c] == piece_on(
                    m.problem(),
                    self.board.points@.len() as int,
                    as_ints(solution@),
                    c,
                    solution.len() as int,
                ),
    {
        let n = self.board.len();
        let ghost pb = m.problem();
        let ghost ids = as_ints(solution@);
        let mut out: Vec<usize> = Vec::new();
        let mut c: usize = 0;
        while c < n
            invariant
                c <= n,
                out.len() == c,
                forall|k: int| 0 <= k < c ==> out[k] == 0,
            decreases n - c,
        {
            out.push(0);
            c += 1;
        }
        let mut i: usize = 0;
        while i < solution.len()
            invariant
                i <= solution.len(),
                m.wf(),
                pb == m.problem(),
                ids == as_ints(solution@),
                n == self.board.points@.len(),
                out.len() == n,
                forall|r: int| 0 <= r < pb.rows.len() ==> shaped(#[trigger] pb.rows[r], n as int),
                forall|k: int| 0 <= k < solution.len() ==> (#[trigger] solution[k]) < pb.rows.len(),
                forall|k: int|
                    0 <= k < n ==> #[trigger] out[k] == piece_on(pb, n as int, ids, k, i as int),
            decreases solution.len() - i,
        {
            let id = solution[i];
            let cols = m.row(id);
            let ghost row = pb.rows[id as int];
            proof {
                assert(shaped(row, n as int));
                assert(as_ints(cols@)[cols.len() - 1] == cols[cols.len() - 1]);
                assert(ids[i as int] == id);
            }
            let piece = cols[cols.len() - 1] - n;
            let mut j: usize = 0;
            assert(row.take(0).len() == 0);
            while j < cols.len() - 1
                invariant
                    j <= cols.len() - 1,
                    as_ints(cols@) == row,
                    shaped(row, n as int),
                    piece == row.last() - n,
                    out.len() == n,
                    forall|k: int|
                        0 <= k < n ==> #[trigger] out[k] == (if row.take(j as int).contains(k) {
                            piece as int
                        } else {
                            piece_on(pb, n as int, ids, k, i as int)
                        }),
                decreases cols.len() - 1 - j,
            {
                let x = cols[j];
                proof {
                    let shorter = row.take(j as int);
                    let longer = row.take(j + 1);
                    assert(row[j as int] == x);
                    assert(longer =~= shorter.push(x as int));
                    assert forall|k: int| longer.contains(k) <==> (shorter.contains(k) || k
                        == x) by {
                        if shorter.contains(k) {
                            let a = choose|a: int| 0 <= a < shorter.len() && shorter[a] == k;
                            assert(longer[a] == k);
                        }
                        if k == x {
                            assert(longer[j as int] == k);
                        }
                        if longer.contains(k) {
                            let a = choose|a: int| 0 <= a < longer.len() && longer[a] == k;
                            if a < j {
                                assert(shorter[a] == k);
                            }
                        }
                    }
                }
                out[x] = piece;
                j += 1;
            }
            i += 1;
        }
        out
    }

    /// Reads a cover as tiles: for each of its rows a tile with the name of
    /// the piece and the cells of the board on which the piece lies.
    pub fn solution(&self, m: Matrix, solution: Vec<usize>) -> (out: Vec<Tile>)
        requires
            m.wf(),
            forall|r: int|
                0 <= r < m.problem().rows.len() ==> shaped(
                    #[trigger] m.problem().rows[r],
                    self.board.points@.len() as int,
                ) && m.problem().rows[r].last() < self.board.points@.len() + self.tiles@.len(),
            forall|i: int|
                0 <= i < solution.len() ==> (#[trigger] solution[i]) < m.problem().rows.len(),
        ensures
            out.len() == solution.len(),
            forall|i: int|
                0 <= i < out.len() ==> {
                    let row = m.problem().rows[solution[i] as int];
                    &&& (#[trigger] out[i]).name@ == self.tiles[row.last()
                        - self.board.points@.len()].name@
                    &&& out[i].points@.len() == row.len() - 1
                    &&& forall|j: int|
                        0 <= j < row.len() - 1 ==> #[trigger] out[i].points[j]
                            == self.board.points[row[j]]
                },
    {
        let n = self.board.len();
        let ghost pb = m.problem();
        let mut out: Vec<Tile> = Vec::new();
        let mut i: usize = 0;
        while i < solution.len()
            invariant
                i <= solution.len(),
                m.wf(),
                pb == m.problem(),
                n == self.board.points@.len(),
                out.len() == i,
                forall|r: int|
                    0 <= r < pb.rows.len() ==> shaped(#[trigger] pb.rows[r], n as int)
                        && pb.rows[r].last() < n + self.tiles@.len(),
                forall|k: int| 0 <= k < solution.len() ==> (#[trigger] solution[k]) < pb.rows.len(),
                forall|k: int|
                    0 <= k < i ==> {
                        let row = pb.rows[solution[k] as int];
                        &&& (#[trigger] out[k]).name@ == self.tiles[row.last() - n].name@
                        &&& out[k].points@.len() == row.len() - 1
                        &&& forall|j: int|
                            0 <= j < row.len() - 1 ==> #[trigger] out[k].points[j]
                                == self.board.points[row[j]]
                    },
            decreases solution.len() - i,
        {
            let id = solution[i];
            let cols = m.row(id);
            let ghost row = pb.rows[id as int];
            proof {
                assert(shaped(row, n as int));
                assert(as_ints(cols@)[cols.len() - 1] == cols[cols.len() - 1]);
            }
            let piece = cols[cols.len() - 1] - n;
            let mut points: Vec<Point> = Vec::new();
            let mut j: usize = 0;
            while j < cols.len() - 1
                invariant
                    j <= cols.len() - 1,
                    as_ints(cols@) == row,
                    shaped(row, n as int),
                    n == self.board.points@.len(),
                    points.len() == j,
                    forall|a: int|
                        0 <= a < j ==> #[trigger] points[a] == self.board.points[row[a]],
                decreases cols.len() - 1 - j,
            {
                assert(row[j as int] == cols[j as int]);
                points.push(self.board.points[cols[j]]);
                j += 1;
            }
            out.push(Tile { name: self.tiles[piece].name.clone(), points: points });
            i += 1;
        }
        out
    }

    /// The puzzle whose board and pieces are drawn in `board` and in
    /// `shapes`, each piece with its name.
    pub fn from_shapes(board: &str, shapes: &Vec<(&str, &str)>) -> (g: Self)
        requires
            board@.len() <= isize::MAX,
            forall|i: int| 0 <= i < shapes.len() ==> (#[trigger] shapes[i]).1@.len() <= isize::MAX,
        ensures
            g.board.name@ == "Board"@,
            g.board.cells() == crate::cells::anchored(crate::tile::scan_cells(board@)),
            g.board.tidy(),
            g.tiles@.len() == shapes.len(),
            forall|i: int|
                0 <= i < shapes.len() ==> (#[trigger] g.tiles[i]).name@ == shapes[i].0@
                    && g.tiles[i].cells() == crate::cells::anchored(
                    crate::tile::scan_cells(shapes[i].1@),
                ) && g.tiles[i].tidy(),
    {
        let b = Tile::from_str("Board", board);
        let mut tiles: Vec<Tile> = Vec::new();
        let n = shapes.len();
        let mut i: usize = 0;
        while i < n
            invariant
                i <= n,
                n == shapes.len(),
                tiles.len() == i,
                forall|k: int|
                    0 <= k < shapes.len() ==> (#[trigger] shapes[k]).1@.len() <= isize::MAX,
                forall|k: int|
                    0 <= k < i ==> (#[trigger] tiles[k]).name@ == shapes[k].0@ && tiles[k].cells()
                        == crate::cells::anchored(crate::tile::scan_cells(shapes[k].1@))
                        && tiles[k].tidy(),
            decreases n - i,
        {
            let t = Tile::from_str(shapes[i].0, shapes[i].1);
            tiles.push(t);
            i += 1;
        }
        Game { board: b, tiles: tiles }
    }

    /// The puzzle that a document describes: the entry `Board` is the
    /// board, every other entry is a piece under its key.
    pub fn from_yaml(yaml: &str) -> (g: Self)
        requires
            yaml@.len() <= isize::MAX,
            parsed(yaml@) is Ok,
        ensures
            g.board.name@ == "Board"@,
            match board_of(parsed(yaml@)->Ok_0, parsed(yaml@)->Ok_0.len() as int) {
                Some(drawing) => g.board.cells() == crate::cells::anchored(
                    crate::tile::scan_cells(drawing),
                ),
                None => g.board.points@.len() == 0,
            },
            g.board.tidy(),
            g.tiles@.len() == pieces_of(
                parsed(yaml@)->Ok_0,
                parsed(yaml@)->Ok_0.len() as int,
            ).len(),
            forall|i: int|
                0 <= i < g.tiles@.len() ==> {
                    let piece = pieces_of(parsed(yaml@)->Ok_0, parsed(yaml@)->Ok_0.len() as int)[i];
                    &&& (#[trigger] g.tiles[i]).name@ == piece.0
                    &&& g.tiles[i].cells() == crate::cells::anchored(
                        crate::tile::scan_cells(piece.1),
                    )
                    &&& g.tiles[i].tidy()
                },
    {
        let ghost all = parsed(yaml@)->Ok_0;
        let contents = match parse(yaml) {
            Ok(v) => v,
            Err(_) => vstd::pervasive::unreached(),
        };
        proof {
            lemma_parsed_bounds(yaml@);
        }
        let mut board: Tile = Tile::new("Board");
        let mut tiles: Vec<Tile> = Vec::new();
        let word = chars_of("Board");
        let n = contents.len();
        let mut i: usize = 0;
        assert(crate::placing::tidy(board.cells()));
        while i < n
            invariant
                i <= n,
                n == contents@.len(),
                n == all.len(),
                word@ == "Board"@,
                yaml@.len() <= isize::MAX,
                forall|k: int|
                    0 <= k < n ==> (#[trigger] contents@[k]).0@ == all[k].0 && contents@[k].1@
                        == all[k].1,
                forall|k: int|
                    0 <= k < n ==> (#[trigger] all[k]).0.len() <= yaml@.len() && all[k].1.len()
                        <= yaml@.len(),
                board.name@ == "Board"@,
                board.tidy(),
                match board_of(all, i as int) {
                    Some(drawing) => board.cells() == crate::cells::anchored(
                        crate::tile::scan_cells(drawing),
                    ),
                    None => board.points@.len() == 0,
                },
                tiles@.len() == pieces_of(all, i as int).len(),
                forall|k: int|
                    0 <= k < tiles@.len() ==> {
                        let piece = pieces_of(all, i as int)[k];
                        &&& (#[trigger] tiles[k]).name@ == piece.0
                        &&& tiles[k].cells() == crate::cells::anchored(
                            crate::tile::scan_cells(piece.1),
                        )
                        &&& tiles[k].tidy()
                    },
            decreases n - i,
        {
            let name = contents[i].0;
            let part = contents[i].1;
            proof {
                assert(contents@[i as int].1@ == all[i as int].1);
                assert(all[i as int].1.len() <= yaml@.len());
            }
            if chars_equal(&chars_of(name), &word) {
                board = Tile::from_str("Board", part);
            } else {
                let tile = Tile::from_str(name, part);
                tiles.push(tile);
            }
            i += 1;
        }
        Self { board: board, tiles: tiles }
    }

    /// Builds the matrix of the puzzle.
    pub fn build_matrix(&mut self) -> (m: Matrix)
        requires
            old(self).valid(),
        ensures
            *final(self) == *old(self),
            m.ready(),
            m.wf(),
            m.is_fresh(),
            m.problem() == old(self).incidence(),
            m.log() == Seq::<int>::empty(),
            m.marks() == Seq::<int>::empty(),
            m.links() == m.built(),
    {
        let n_board = self.board.len();
        let n_tiles = self.tiles.len();
        let mut m = Matrix::new(n_board + n_tiles);
        let ghost bc = self.board.cells();
        let ghost pieces = self.shapes();
        let mut es: Vec<Entry> = Vec::new();
        let mut k: usize = 0;
        assert(views(es@) =~= entries(pieces, 0));
        while k < n_tiles
            invariant
                k <= n_tiles,
                n_tiles == self.tiles@.len(),
                pieces == self.shapes(),
                *self == *old(self),
                self.valid(),
                views(es@) == entries(pieces, k as int),
            decreases n_tiles - k,
        {
            orbit(&mut es, &self.tiles[k], k);
            assert(pieces[k as int] == self.tiles[k as int].cells());
            k += 1;
        }
        let size = self.board.size();
        let w = size.width;
        let h = size.height;
        let ghost evs = views(es@);
        proof {
            assert forall|i: int| 0 <= i < pieces.len() implies tidy(#[trigger] pieces[i]) by {
                assert(self.tiles[i].tidy());
            }
            lemma_entries_ok(pieces, n_tiles as int);
            self.board.lemma_box_fits();
        }
        let n_es = es.len();
        let mut a: usize = 0;
        while a < n_es
            invariant
                a <= n_es,
                n_es == es.len(),
                *self == *old(self),
                self.valid(),
                bc == self.board.cells(),
                evs == views(es@),
                entries_ok(evs, n_tiles as int),
                n_board == self.board.points@.len(),
                n_tiles == self.tiles@.len(),
                w == width(bc),
                h == height(bc),
                w <= isize::MAX,
                h <= isize::MAX,
                m.ready(),
                m.wf(),
                m.is_fresh(),
                m.log() == Seq::<int>::empty(),
                m.marks() == Seq::<int>::empty(),
                m.links() == m.built(),
                m.problem() == (Incidence {
                    n: n_board + n_tiles,
                    rows: rows_upto(bc, evs, w as int, h as int, a as int),
                }),
            decreases n_es - a,
        {
            let ghost done = rows_upto(bc, evs, w as int, h as int, a as int);
            let ghost e = evs[a as int];
            assert(e == es[a as int]@);
            let mut dy: usize = 0;
            assert(done + placed(bc, e, w as int, 0, 0) =~= done);
            while dy < h
                invariant
                    dy <= h,
                    a < n_es,
                    n_es == es.len(),
                    *self == *old(self),
                    bc == self.board.cells(),
                    evs == views(es@),
                    e == es[a as int]@,
                    e == evs[a as int],
                    entries_ok(evs, n_tiles as int),
                    n_board == self.board.points@.len(),
                    n_board + n_tiles < usize::MAX,
                    w <= isize::MAX,
                    h <= isize::MAX,
                    m.ready(),
                    m.wf(),
                    m.is_fresh(),
                    m.log() == Seq::<int>::empty(),
                    m.marks() == Seq::<int>::empty(),
                    m.links() == m.built(),
                    m.problem() == (Incidence {
                        n: n_board + n_tiles,
                        rows: done + placed(bc, e, w as int, dy as int, 0),
                    }),
                decreases h - dy,
            {
                let mut dx: usize = 0;
                while dx < w
                    invariant
                        dx <= w,
                        dy < h,
                        a < n_es,
                        n_es == es.len(),
                        *self == *old(self),
                        bc == self.board.cells(),
                        evs == views(es@),
                        e == es[a as int]@,
                        e == evs[a as int],
                        entries_ok(evs, n_tiles as int),
                        n_board == self.board.points@.len(),
                        n_board + n_tiles < usize::MAX,
                        w <= isize::MAX,
                        h <= isize::MAX,
                        m.ready(),
                        m.wf(),
                        m.is_fresh(),
                        m.log() == Seq::<int>::empty(),
                        m.marks() == Seq::<int>::empty(),
                        m.links() == m.built(),
                        m.problem() == (Incidence {
                            n: n_board + n_tiles,
                            rows: done + placed(bc, e, w as int, dy as int, dx as int),
                        }),
                    decreases w - dx,
                {
                    match place(&self.board, &es[a], dx, dy) {
                        Some(row) => {
                            proof {
                                lemma_row_at(bc, e, dx as int, dy as int, n_tiles as int);
                                lemma_no_duplicates(row@);
                                assert forall|j: int| 0 <= j < row.len() implies row[j]
                                    < m.problem().n by {
                                    assert(as_ints(row@)[j] == row[j]);
                                }
                            }
                            m.add_row(&row);
                            proof {
                                assert(done + placed(bc, e, w as int, dy as int, dx + 1) =~= (done
                                    + placed(bc, e, w as int, dy as int, dx as int)).push(
                                    as_ints(row@),
                                ));
                            }
                        },
                        None => {},
                    }
                    dx += 1;
                }
                proof {
                    lemma_placed_next_line(bc, e, w as int, dy as int);
                }
                dy += 1;
            }
            proof {
                assert(rows_upto(bc, evs, w as int, h as int, a + 1) == done + placed(
                    bc,
                    e,
                    w as int,
                    h as int,
                    0,
                ));
            }
            a += 1;
        }
        m
    }
}

/// A list of numbers in which no number occurs twice.
pub proof fn lemma_no_duplicates(s: Seq<usize>)
    requires
        as_ints(s).no_duplicates(),
    ensures
        s.no_duplicates(),
{
    assert forall|i: int, j: int| 0 <= i < s.len() && 0 <= j < s.len() && i != j implies s[i]
        != s[j] by {
        assert(as_ints(s)[i] != as_ints(s)[j]);
    }
}

} // verus!
