//! From pieces to rows: the orientations of each piece, their order, and
//! the placements of an orientation on the board, as mathematics.
use vstd::prelude::*;
use crate::cells::{
    anchored, cell_lt, lemma_ascending_same, lemma_min_x, lemma_min_y,
    lemma_normalized_is_canonical, lemma_sorted, min_x, min_y, mirrored, normalized, rotated,
    strictly_ascending,
};

verus! {

/// A piece in one of its orientations.
pub struct Oriented {
    /// The cells, in canonical form.
    pub cells: Seq<(int, int)>,
    /// The place of the piece among the pieces of the puzzle.
    pub index: int,
}

/// Step `o` of the walk through the orientations: a reflection as the
/// fifth step, a quarter turn as every other, and then the canonical form.
pub open spec fn turn(cells: Seq<(int, int)>, o: int) -> Seq<(int, int)> {
    normalized(if o == 4 { mirrored(cells) } else { rotated(cells) })
}

/// The orientation reached after the steps `0..=o`.
pub open spec fn variant(cells: Seq<(int, int)>, o: int) -> Seq<(int, int)>
    decreases o,
{
    if o <= 0 {
        turn(cells, 0)
    } else {
        turn(variant(cells, o - 1), o)
    }
}

/// Lists of cells in the order of their first differing cell; a list
/// stands before those that it begins.
pub open spec fn cells_lt(a: Seq<(int, int)>, b: Seq<(int, int)>) -> bool
    decreases a.len(),
{
    if b.len() == 0 {
        false
    } else if a.len() == 0 {
        true
    } else if a[0] != b[0] {
        cell_lt(a[0], b[0])
    } else {
        cells_lt(a.drop_first(), b.drop_first())
    }
}

/// The order of the orientations: piece by piece, and those of a piece by
/// their cells.
pub open spec fn oriented_lt(a: Oriented, b: Oriented) -> bool {
    a.index < b.index || (a.index == b.index && cells_lt(a.cells, b.cells))
}

/// The number of leading entries of `list` that stand before `e`.
pub open spec fn rank(list: Seq<Oriented>, e: Oriented) -> int
    decreases list.len(),
{
    if list.len() == 0 || !oriented_lt(list[0], e) {
        0
    } else {
        1 + rank(list.drop_first(), e)
    }
}

/// The list with `e` put in at its rank, unless it stands there already.
pub open spec fn inserted(list: Seq<Oriented>, e: Oriented) -> Seq<Oriented> {
    let k = rank(list, e);
    if k < list.len() && list[k] == e {
        list
    } else {
        list.insert(k, e)
    }
}

/// The list after the first `o` orientations of a piece are put in.
pub open spec fn orbit_into(
    list: Seq<Oriented>,
    cells: Seq<(int, int)>,
    index: int,
    o: int,
) -> Seq<Oriented>
    decreases o,
{
    if o <= 0 {
        list
    } else {
        inserted(
            orbit_into(list, cells, index, o - 1),
            Oriented { cells: variant(cells, o - 1), index: index },
        )
    }
}

/// The distinct orientations of the first `k` pieces, in order.
pub open spec fn entries(shapes: Seq<Seq<(int, int)>>, k: int) -> Seq<Oriented>
    decreases k,
{
    if k <= 0 {
        Seq::empty()
    } else {
        orbit_into(entries(shapes, k - 1), shapes[k - 1], k - 1, 8)
    }
}

/// The place of the first cell of the board equal to `c`; the number of
/// cells where there is none.
pub open spec fn index_of(board: Seq<(int, int)>, c: (int, int)) -> int
    decreases board.len(),
{
    if board.len() == 0 {
        0
    } else if board[0] == c {
        0
    } else {
        1 + index_of(board.drop_first(), c)
    }
}

/// Moved by (dx, dy), every cell is a cell of the board.
pub open spec fn fits(board: Seq<(int, int)>, cells: Seq<(int, int)>, dx: int, dy: int) -> bool {
    forall|i: int| 0 <= i < cells.len() ==> board.contains(#[trigger] moved(cells, dx, dy, i))
}

/// Cell `i` moved by (dx, dy).
pub open spec fn moved(cells: Seq<(int, int)>, dx: int, dy: int, i: int) -> (int, int) {
    (cells[i].0 + dx, cells[i].1 + dy)
}

/// The order of the numbers.
pub open spec fn int_order() -> spec_fn(int, int) -> bool {
    |a: int, b: int| a <= b
}

/// The numbers in ascending order.
pub open spec fn ascending_of(s: Seq<int>) -> Seq<int> {
    s.sort_by(int_order())
}

/// Each number is at most the numbers after it.
pub open spec fn ascending(s: Seq<int>) -> bool {
    forall|i: int, j: int| 0 <= i < j < s.len() ==> s[i] <= s[j]
}

/// Each number is less than the numbers after it.
pub open spec fn rising(s: Seq<int>) -> bool {
    forall|i: int, j: int| 0 <= i < j < s.len() ==> s[i] < s[j]
}

/// The columns of the cells of a placement, in the order of the cells.
pub open spec fn columns_at(
    board: Seq<(int, int)>,
    cells: Seq<(int, int)>,
    dx: int,
    dy: int,
) -> Seq<int> {
    Seq::new(cells.len(), |i: int| index_of(board, moved(cells, dx, dy, i)))
}

/// The row of a placement: the columns of the covered cells in ascending
/// order, and then the column of the piece.
pub open spec fn row_at(board: Seq<(int, int)>, e: Oriented, dx: int, dy: int) -> Seq<int> {
    ascending_of(columns_at(board, e.cells, dx, dy)).push(board.len() + e.index)
}

/// The rows of the placements of `e` at the anchors before (dx, dy): the
/// anchors line by line from the top, each line from left to right, over
/// a box `w` wide.
pub open spec fn placed(board: Seq<(int, int)>, e: Oriented, w: int, dy: int, dx: int) -> Seq<
    Seq<int>,
>
    decreases dy, dx,
{
    if dx > 0 {
        if fits(board, e.cells, dx - 1, dy) {
            placed(board, e, w, dy, dx - 1).push(row_at(board, e, dx - 1, dy))
        } else {
            placed(board, e, w, dy, dx - 1)
        }
    } else if dy > 0 && w >= 0 {
        placed(board, e, w, dy - 1, w)
    } else {
        Seq::empty()
    }
}

/// The rows of the placements of the first `k` orientations on a board
/// whose box is `w` wide and `h` high.
pub open spec fn rows_upto(
    board: Seq<(int, int)>,
    es: Seq<Oriented>,
    w: int,
    h: int,
    k: int,
) -> Seq<Seq<int>>
    decreases k,
{
    if k <= 0 {
        Seq::empty()
    } else {
        rows_upto(board, es, w, h, k - 1) + placed(board, es[k - 1], w, h, 0)
    }
}

/// No cell twice, and every coordinate and every extent within what the
/// coordinate type holds after any turn.
pub open spec fn tidy(s: Seq<(int, int)>) -> bool {
    &&& s.no_duplicates()
    &&& forall|i: int|
        0 <= i < s.len() ==> isize::MIN < (#[trigger] s[i]).0 <= isize::MAX && isize::MIN < s[i].1
            <= isize::MAX
    &&& forall|i: int, j: int|
        0 <= i < s.len() && 0 <= j < s.len() ==> (#[trigger] s[i]).0 - (#[trigger] s[j]).0
            < isize::MAX && s[i].1 - s[j].1 < isize::MAX
}

/// Turning or reflecting a tidy shape leaves it tidy.
pub proof fn lemma_tidy_moves(s: Seq<(int, int)>)
    requires
        tidy(s),
    ensures
        tidy(rotated(s)),
        tidy(mirrored(s)),
{
    let r = rotated(s);
    let m = mirrored(s);
    assert forall|i: int, j: int| 0 <= i < r.len() && 0 <= j < r.len() && i != j implies r[i]
        != r[j] by {
        assert(s[i] != s[j]);
    }
    assert forall|i: int, j: int| 0 <= i < m.len() && 0 <= j < m.len() && i != j implies m[i]
        != m[j] by {
        assert(s[i] != s[j]);
    }
    assert forall|i: int, j: int| 0 <= i < r.len() && 0 <= j < r.len() implies (#[trigger] r[i]).0
        - (#[trigger] r[j]).0 < isize::MAX && r[i].1 - r[j].1 < isize::MAX by {
        assert(s[i].1 - s[j].1 < isize::MAX);
        assert(s[j].0 - s[i].0 < isize::MAX);
    }
    assert forall|i: int, j: int| 0 <= i < m.len() && 0 <= j < m.len() implies (#[trigger] m[i]).0
        - (#[trigger] m[j]).0 < isize::MAX && m[i].1 - m[j].1 < isize::MAX by {
        assert(s[j].0 - s[i].0 < isize::MAX);
        assert(s[i].1 - s[j].1 < isize::MAX);
    }
}

/// The canonical form of a tidy shape is tidy, and its coordinates are
/// not negative.
pub proof fn lemma_tidy_normalized(s: Seq<(int, int)>)
    requires
        tidy(s),
    ensures
        tidy(normalized(s)),
        normalized(s).len() == s.len(),
        forall|i: int|
            0 <= i < s.len() ==> 0 <= (#[trigger] normalized(s)[i]).0 && 0 <= normalized(s)[i].1,
{
    let a = anchored(s);
    let n = normalized(s);
    lemma_sorted(a);
    if s.len() > 0 {
        lemma_min_x(s);
        lemma_min_y(s);
        let kx = choose|i: int| 0 <= i < s.len() && (#[trigger] s[i]).0 == min_x(s);
        let ky = choose|i: int| 0 <= i < s.len() && (#[trigger] s[i]).1 == min_y(s);
        assert forall|i: int, j: int| 0 <= i < a.len() && 0 <= j < a.len() && i != j implies a[i]
            != a[j] by {
            assert(s[i] != s[j]);
        }
        assert forall|i: int| 0 <= i < n.len() implies 0 <= (#[trigger] n[i]).0 < isize::MAX && 0
            <= n[i].1 < isize::MAX by {
            assert(a.contains(n[i]));
            let k = choose|k: int| 0 <= k < a.len() && a[k] == n[i];
            assert(s[k].0 - s[kx].0 < isize::MAX);
            assert(s[k].1 - s[ky].1 < isize::MAX);
        }
        assert forall|i: int, j: int| 0 <= i < n.len() && 0 <= j < n.len() implies (
        #[trigger] n[i]).0 - (#[trigger] n[j]).0 < isize::MAX && n[i].1 - n[j].1 < isize::MAX by {
            assert(0 <= n[i].0 < isize::MAX);
            assert(0 <= n[j].0 < isize::MAX);
        }
    }
}

/// A shape in canonical form: it starts at the origin in both directions
/// and its cells stand in strictly ascending order.
pub open spec fn canonical(s: Seq<(int, int)>) -> bool {
    &&& min_x(s) == 0
    &&& min_y(s) == 0
    &&& strictly_ascending(s)
    &&& forall|i: int| 0 <= i < s.len() ==> 0 <= (#[trigger] s[i]).0 && 0 <= s[i].1
}

/// Every orientation of a tidy shape is tidy and in canonical form, and
/// has as many cells as the shape.
pub proof fn lemma_tidy_variant(s: Seq<(int, int)>, o: int)
    requires
        tidy(s),
    ensures
        tidy(variant(s, o)),
        canonical(variant(s, o)),
        variant(s, o).len() == s.len(),
        forall|i: int|
            0 <= i < s.len() ==> 0 <= (#[trigger] variant(s, o)[i]).0 && 0 <= variant(s, o)[i].1,
    decreases o,
{
    if o <= 0 {
        lemma_tidy_moves(s);
        lemma_tidy_normalized(rotated(s));
        lemma_normalized_is_canonical(rotated(s));
    } else {
        lemma_tidy_variant(s, o - 1);
        let p = variant(s, o - 1);
        lemma_tidy_moves(p);
        if o == 4 {
            lemma_tidy_normalized(mirrored(p));
            lemma_normalized_is_canonical(mirrored(p));
        } else {
            lemma_tidy_normalized(rotated(p));
            lemma_normalized_is_canonical(rotated(p));
        }
    }
}

/// Every entry is a tidy shape of one of the `p` pieces.
pub open spec fn entries_ok(list: Seq<Oriented>, p: int) -> bool {
    forall|i: int|
        0 <= i < list.len() ==> tidy((#[trigger] list[i]).cells) && 0 <= list[i].index < p
}

/// The rank of an entry is a place in the list, or its end.
pub proof fn lemma_rank(list: Seq<Oriented>, e: Oriented)
    ensures
        0 <= rank(list, e) <= list.len(),
    decreases list.len(),
{
    if list.len() > 0 && oriented_lt(list[0], e) {
        lemma_rank(list.drop_first(), e);
    }
}

/// An entry that is put in keeps the list one of tidy shapes of the pieces.
pub proof fn lemma_inserted_ok(list: Seq<Oriented>, e: Oriented, p: int)
    requires
        entries_ok(list, p),
        tidy(e.cells),
        0 <= e.index < p,
    ensures
        entries_ok(inserted(list, e), p),
{
    lemma_rank(list, e);
    let k = rank(list, e);
    let r = inserted(list, e);
    assert forall|i: int| 0 <= i < r.len() implies tidy((#[trigger] r[i]).cells) && 0
        <= r[i].index < p by {
        if r != list {
            if i < k {
                assert(r[i] == list[i]);
            } else if i > k {
                assert(r[i] == list[i - 1]);
            }
        }
    }
}

/// The orientations of a tidy piece keep the list one of tidy shapes.
pub proof fn lemma_orbit_ok(
    list: Seq<Oriented>,
    cells: Seq<(int, int)>,
    index: int,
    o: int,
    p: int,
)
    requires
        entries_ok(list, p),
        tidy(cells),
        0 <= index < p,
    ensures
        entries_ok(orbit_into(list, cells, index, o), p),
    decreases o,
{
    if o > 0 {
        lemma_orbit_ok(list, cells, index, o - 1, p);
        lemma_tidy_variant(cells, o - 1);
        lemma_inserted_ok(
            orbit_into(list, cells, index, o - 1),
            Oriented { cells: variant(cells, o - 1), index: index },
            p,
        );
    }
}

/// The orientations of tidy pieces are tidy shapes of those pieces.
pub proof fn lemma_entries_ok(shapes: Seq<Seq<(int, int)>>, k: int)
    requires
        0 <= k <= shapes.len(),
        forall|i: int| 0 <= i < shapes.len() ==> tidy(#[trigger] shapes[i]),
    ensures
        entries_ok(entries(shapes, k), shapes.len() as int),
    decreases k,
{
    if k > 0 {
        lemma_entries_ok(shapes, k - 1);
        lemma_orbit_ok(
            entries(shapes, k - 1),
            shapes[k - 1],
            k - 1,
            8,
            shapes.len() as int,
        );
    }
}

/// Where a cell of the board is first found.
pub proof fn lemma_index_of(board: Seq<(int, int)>, c: (int, int))
    ensures
        0 <= index_of(board, c) <= board.len(),
        board.contains(c) <==> index_of(board, c) < board.len(),
        board.contains(c) ==> board[index_of(board, c)] == c,
        forall|k: int| 0 <= k < index_of(board, c) ==> board[k] != c,
    decreases board.len(),
{
    if board.len() > 0 && board[0] != c {
        let rest = board.drop_first();
        lemma_index_of(rest, c);
        if rest.contains(c) {
            let k = choose|k: int| 0 <= k < rest.len() && rest[k] == c;
            assert(board[k + 1] == c);
        }
        if board.contains(c) {
            let k = choose|k: int| 0 <= k < board.len() && board[k] == c;
            assert(rest[k - 1] == c);
        }
        assert forall|k: int| 0 <= k < index_of(board, c) implies board[k] != c by {
            if k > 0 {
                assert(rest[k - 1] == board[k]);
            }
        }
    } else if board.len() > 0 {
        assert(board[0] == c);
    }
}

/// A row is shaped like a placement on a board of `n` cells: it ends with
/// the column of a piece, and names cells before.
pub open spec fn shaped(row: Seq<int>, n: int) -> bool {
    &&& row.len() > 0
    &&& row.last() >= n
    &&& forall|i: int| 0 <= i < row.len() - 1 ==> 0 <= #[trigger] row[i] < n
}

/// The numbers in ascending order are the same numbers, each as often;
/// where no number occurs twice the order is strict.
pub proof fn lemma_ascending(s: Seq<int>)
    ensures
        ascending_of(s).len() == s.len(),
        ascending_of(s).to_multiset() == s.to_multiset(),
        forall|i: int| 0 <= i < s.len() ==> ascending_of(s).contains(#[trigger] s[i]),
        forall|i: int| 0 <= i < s.len() ==> s.contains(#[trigger] ascending_of(s)[i]),
        ascending(ascending_of(s)),
        s.no_duplicates() ==> ascending_of(s).no_duplicates() && rising(ascending_of(s)),
{
    broadcast use vstd::seq_lib::group_to_multiset_ensures;

    let t = ascending_of(s);
    s.lemma_sort_by_ensures(int_order());
    assert(t.len() == t.to_multiset().len());
    assert(s.len() == s.to_multiset().len());
    assert forall|i: int| 0 <= i < s.len() implies t.contains(#[trigger] s[i]) by {
        assert(s.contains(s[i]));
        assert(s.to_multiset().count(s[i]) > 0);
    }
    assert forall|i: int| 0 <= i < s.len() implies s.contains(#[trigger] t[i]) by {
        assert(t.contains(t[i]));
        assert(t.to_multiset().count(t[i]) > 0);
    }
    assert forall|i: int, j: int| 0 <= i < j < t.len() implies t[i] <= t[j] by {
        assert(int_order()(t[i], t[j]));
    }
    if s.no_duplicates() {
        s.lemma_multiset_has_no_duplicates();
        t.lemma_multiset_has_no_duplicates_conv();
        assert forall|i: int, j: int| 0 <= i < j < t.len() implies t[i] < t[j] by {
            assert(t[i] <= t[j]);
            assert(t[i] != t[j]);
        }
    }
}

/// A list in ascending order that holds the same numbers as `s`, each as
/// often, is `s` in ascending order.
pub proof fn lemma_ascending_is(s: Seq<int>, t: Seq<int>)
    requires
        t.to_multiset() == s.to_multiset(),
        ascending(t),
    ensures
        t == ascending_of(s),
{
    s.lemma_sort_by_ensures(int_order());
    let r = int_order();
    assert(vstd::relations::total_ordering(r)) by {
        assert(vstd::relations::reflexive(r));
        assert(vstd::relations::antisymmetric(r));
        assert(vstd::relations::transitive(r));
        assert(vstd::relations::strongly_connected(r));
    }
    assert(vstd::relations::sorted_by(t, r));
    vstd::seq_lib::lemma_sorted_unique(t, ascending_of(s), r);
}

/// The row of a placement that fits names each of its columns once: the
/// cells in strictly ascending order, and the piece last.
pub proof fn lemma_row_at(board: Seq<(int, int)>, e: Oriented, dx: int, dy: int, p: int)
    requires
        fits(board, e.cells, dx, dy),
        tidy(e.cells),
        0 <= e.index < p,
    ensures
        row_at(board, e, dx, dy).len() == e.cells.len() + 1,
        row_at(board, e, dx, dy).last() == board.len() + e.index,
        row_at(board, e, dx, dy).no_duplicates(),
        shaped(row_at(board, e, dx, dy), board.len() as int),
        rising(row_at(board, e, dx, dy)),
        forall|i: int|
            0 <= i < row_at(board, e, dx, dy).len() ==> 0 <= #[trigger] row_at(board, e, dx, dy)[i]
                < board.len() + p,
{
    let cols = columns_at(board, e.cells, dx, dy);
    let sorted = ascending_of(cols);
    let row = row_at(board, e, dx, dy);
    let m = e.cells.len() as int;
    assert forall|i: int| 0 <= i < m implies 0 <= #[trigger] cols[i] < board.len() && board[cols[i]]
        == moved(e.cells, dx, dy, i) by {
        assert(board.contains(moved(e.cells, dx, dy, i)));
        lemma_index_of(board, moved(e.cells, dx, dy, i));
    }
    assert forall|i: int, j: int| 0 <= i < m && 0 <= j < m && i != j implies cols[i] != cols[j] by {
        assert(e.cells[i] != e.cells[j]);
        assert(board[cols[i]] == moved(e.cells, dx, dy, i));
        assert(board[cols[j]] == moved(e.cells, dx, dy, j));
    }
    lemma_ascending(cols);
    assert forall|i: int| 0 <= i < m implies 0 <= #[trigger] sorted[i] < board.len() by {
        assert(cols.contains(sorted[i]));
        let k = choose|k: int| 0 <= k < cols.len() && cols[k] == sorted[i];
        assert(0 <= cols[k] < board.len());
    }
    assert forall|i: int| 0 <= i < row.len() implies 0 <= #[trigger] row[i] < board.len() + p by {
        if i < m {
            assert(row[i] == sorted[i]);
        }
    }
    assert forall|i: int, j: int| 0 <= i < j < row.len() implies row[i] < row[j] by {
        assert(row[i] == sorted[i]);
        if j < m {
            assert(row[j] == sorted[j]);
        }
    }
    assert forall|i: int| 0 <= i < row.len() - 1 implies 0 <= #[trigger] row[i] < board.len() by {
        assert(row[i] == sorted[i]);
    }
}

/// One line of anchors done, the next begins.
pub proof fn lemma_placed_next_line(board: Seq<(int, int)>, e: Oriented, w: int, dy: int)
    requires
        0 <= dy,
        0 <= w,
    ensures
        placed(board, e, w, dy + 1, 0) == placed(board, e, w, dy, w),
{
}

/// Placements are shaped rows.
pub proof fn lemma_placed_shaped(
    board: Seq<(int, int)>,
    e: Oriented,
    w: int,
    dy: int,
    dx: int,
    p: int,
    k: int,
)
    requires
        tidy(e.cells),
        0 <= e.index < p,
        0 <= k < placed(board, e, w, dy, dx).len(),
    ensures
        shaped(placed(board, e, w, dy, dx)[k], board.len() as int),
        rising(placed(board, e, w, dy, dx)[k]),
        placed(board, e, w, dy, dx)[k].last() < board.len() + p,
    decreases dy, dx,
{
    if dx > 0 {
        let prev = placed(board, e, w, dy, dx - 1);
        if fits(board, e.cells, dx - 1, dy) && k == prev.len() {
            lemma_row_at(board, e, dx - 1, dy, p);
        } else {
            lemma_placed_shaped(board, e, w, dy, dx - 1, p, k);
        }
    } else if dy > 0 && w >= 0 {
        lemma_placed_shaped(board, e, w, dy - 1, w, p, k);
    }
}

/// The rows of the placements of tidy orientations are shaped rows.
pub proof fn lemma_rows_shaped(
    board: Seq<(int, int)>,
    es: Seq<Oriented>,
    w: int,
    h: int,
    a: int,
    p: int,
    k: int,
)
    requires
        entries_ok(es, p),
        0 <= a <= es.len(),
        0 <= k < rows_upto(board, es, w, h, a).len(),
    ensures
        shaped(rows_upto(board, es, w, h, a)[k], board.len() as int),
        rising(rows_upto(board, es, w, h, a)[k]),
        rows_upto(board, es, w, h, a)[k].last() < board.len() + p,
    decreases a,
{
    if a > 0 {
        let prev = rows_upto(board, es, w, h, a - 1);
        if k < prev.len() {
            lemma_rows_shaped(board, es, w, h, a - 1, p, k);
        } else {
            lemma_placed_shaped(board, es[a - 1], w, h, 0, p, k - prev.len());
        }
    }
}

/// Of two lists of cells, one stands before the other or they are the
/// same, and never both.
pub proof fn lemma_cells_order(a: Seq<(int, int)>, b: Seq<(int, int)>)
    ensures
        cells_lt(a, b) || a == b || cells_lt(b, a),
        !(cells_lt(a, b) && cells_lt(b, a)),
        !cells_lt(a, a),
    decreases a.len(),
{
    if a.len() > 0 && b.len() > 0 && a[0] == b[0] {
        lemma_cells_order(a.drop_first(), b.drop_first());
        if a.drop_first() == b.drop_first() {
            assert(a =~= seq![a[0]] + a.drop_first());
            assert(b =~= seq![b[0]] + b.drop_first());
        }
    } else if a.len() == 0 && b.len() == 0 {
        assert(a =~= b);
    }
    if a.len() > 0 {
        lemma_cells_order(a.drop_first(), a.drop_first());
    }
}

/// The order of the lists of cells is transitive.
pub proof fn lemma_cells_trans(a: Seq<(int, int)>, b: Seq<(int, int)>, c: Seq<(int, int)>)
    requires
        cells_lt(a, b),
        cells_lt(b, c),
    ensures
        cells_lt(a, c),
    decreases a.len(),
{
    if a.len() > 0 && b.len() > 0 && c.len() > 0 && a[0] == b[0] && b[0] == c[0] {
        lemma_cells_trans(a.drop_first(), b.drop_first(), c.drop_first());
    }
}

/// The order of the orientations is a strict total order.
pub proof fn lemma_oriented_order(a: Oriented, b: Oriented)
    ensures
        oriented_lt(a, b) || a == b || oriented_lt(b, a),
        !(oriented_lt(a, b) && oriented_lt(b, a)),
        !oriented_lt(a, a),
{
    lemma_cells_order(a.cells, b.cells);
    lemma_cells_order(a.cells, a.cells);
}

/// The order of the orientations is transitive.
pub proof fn lemma_oriented_trans(a: Oriented, b: Oriented, c: Oriented)
    requires
        oriented_lt(a, b),
        oriented_lt(b, c),
    ensures
        oriented_lt(a, c),
{
    lemma_cells_order(a.cells, b.cells);
    lemma_cells_order(b.cells, c.cells);
    if cells_lt(a.cells, b.cells) && cells_lt(b.cells, c.cells) {
        lemma_cells_trans(a.cells, b.cells, c.cells);
    }
}

/// Each entry stands before all later ones: the list is in order and
/// holds nothing twice.
pub open spec fn in_order(list: Seq<Oriented>) -> bool {
    forall|i: int, j: int|
        0 <= i < j < list.len() ==> oriented_lt(#[trigger] list[i], #[trigger] list[j])
}

/// The entries before the rank of `e` stand before `e`, and the entry at
/// the rank does not.
pub proof fn lemma_rank_splits(list: Seq<Oriented>, e: Oriented)
    ensures
        0 <= rank(list, e) <= list.len(),
        forall|i: int| 0 <= i < rank(list, e) ==> oriented_lt(#[trigger] list[i], e),
        rank(list, e) < list.len() ==> !oriented_lt(list[rank(list, e)], e),
    decreases list.len(),
{
    if list.len() > 0 && oriented_lt(list[0], e) {
        let rest = list.drop_first();
        lemma_rank_splits(rest, e);
        assert forall|i: int| 0 <= i < rank(list, e) implies oriented_lt(#[trigger] list[i], e) by {
            if i > 0 {
                assert(rest[i - 1] == list[i]);
            }
        }
        if rank(list, e) < list.len() {
            assert(rest[rank(rest, e)] == list[rank(list, e)]);
        }
    }
}

/// Putting an entry into a list in order leaves the list in order, and the
/// list then holds what it held and the entry.
pub proof fn lemma_inserted(list: Seq<Oriented>, e: Oriented)
    requires
        in_order(list),
    ensures
        in_order(inserted(list, e)),
        forall|x: Oriented| #[trigger]
            inserted(list, e).contains(x) <==> list.contains(x) || x == e,
{
    lemma_rank_splits(list, e);
    let k = rank(list, e);
    let r = inserted(list, e);
    if k < list.len() && list[k] == e {
        assert forall|x: Oriented| #[trigger] r.contains(x) <==> list.contains(x) || x == e by {
            if x == e {
                assert(list[k] == x);
            }
        }
    } else {
        assert forall|i: int, j: int| 0 <= i < j < r.len() implies oriented_lt(
            #[trigger] r[i],
            #[trigger] r[j],
        ) by {
            let i0 = if i < k { i } else { i - 1 };
            let j0 = if j < k { j } else { j - 1 };
            if i != k && j != k {
                assert(oriented_lt(list[i0], list[j0]));
            } else if j == k {
                assert(oriented_lt(list[i0], e));
            } else {
                // `e` stands before the entry at its rank, and so before all later ones
                lemma_oriented_order(list[k], e);
                if j0 > k {
                    assert(oriented_lt(list[k], list[j0]));
                    lemma_oriented_trans(e, list[k], list[j0]);
                }
            }
        }
        assert forall|x: Oriented| #[trigger] r.contains(x) <==> list.contains(x) || x == e by {
            if list.contains(x) {
                let i = choose|i: int| 0 <= i < list.len() && list[i] == x;
                if i < k {
                    assert(r[i] == x);
                } else {
                    assert(r[i + 1] == x);
                }
            }
            if x == e {
                assert(r[k] == x);
            }
            if r.contains(x) {
                let i = choose|i: int| 0 <= i < r.len() && r[i] == x;
                if i < k {
                    assert(list[i] == x);
                } else if i > k {
                    assert(list[i - 1] == x);
                }
            }
        }
    }
}

/// `x` is one of the first `o` orientations of the piece.
pub open spec fn is_variant(
    x: Oriented,
    cells: Seq<(int, int)>,
    index: int,
    o: int,
) -> bool {
    exists|k: int|
        0 <= k < o && x == (Oriented {
            cells: #[trigger] variant(cells, k),
            index: index,
        })
}

/// With the orientations of a piece put in, a list in order is in order,
/// and holds what it held and those orientations.
pub proof fn lemma_orbit(
    list: Seq<Oriented>,
    cells: Seq<(int, int)>,
    index: int,
    o: int,
)
    requires
        in_order(list),
    ensures
        in_order(orbit_into(list, cells, index, o)),
        forall|x: Oriented| #[trigger]
            orbit_into(list, cells, index, o).contains(x) <==> list.contains(x) || is_variant(
                x,
                cells,
                index,
                o,
            ),
    decreases o,
{
    if o > 0 {
        let prev = orbit_into(list, cells, index, o - 1);
        let e = Oriented { cells: variant(cells, o - 1), index: index };
        lemma_orbit(list, cells, index, o - 1);
        lemma_inserted(prev, e);
        let r = inserted(prev, e);
        assert(orbit_into(list, cells, index, o) == r);
        assert forall|x: Oriented| #[trigger]
            orbit_into(list, cells, index, o).contains(x) <==> list.contains(x) || is_variant(
                x,
                cells,
                index,
                o,
            ) by {
            assert(r.contains(x) <==> prev.contains(x) || x == e);
            assert(prev.contains(x) <==> list.contains(x) || is_variant(
                x,
                cells,
                index,
                o - 1,
            ));
            if is_variant(x, cells, index, o - 1) {
                let k = choose|k: int|
                    0 <= k < o - 1 && x == (Oriented {
                        cells: #[trigger] variant(cells, k),
                        index: index,
                    });
                assert(0 <= k < o);
            }
            if x == e {
                assert(0 <= o - 1 < o && x == (Oriented {
                    cells: variant(cells, o - 1),
                    index: index,
                }));
            }
            if is_variant(x, cells, index, o) {
                let k = choose|k: int|
                    0 <= k < o && x == (Oriented {
                        cells: #[trigger] variant(cells, k),
                        index: index,
                    });
                if k < o - 1 {
                    assert(is_variant(x, cells, index, o - 1));
                }
            }
        }
    }
}

/// The orientations of the pieces stand in ascending order, each once:
/// piece by piece, and those of a piece by their cells.  They are the
/// eight turns and reflections of every piece, in canonical form.
pub proof fn lemma_entries(shapes: Seq<Seq<(int, int)>>, k: int)
    requires
        0 <= k <= shapes.len(),
    ensures
        in_order(entries(shapes, k)),
        forall|x: Oriented| #[trigger]
            entries(shapes, k).contains(x) <==> exists|i: int|
                0 <= i < k && #[trigger] is_variant(x, shapes[i], i, 8),
    decreases k,
{
    if k > 0 {
        lemma_entries(shapes, k - 1);
        lemma_orbit(entries(shapes, k - 1), shapes[k - 1], k - 1, 8);
        assert forall|x: Oriented| #[trigger]
            entries(shapes, k).contains(x) <==> exists|i: int|
                0 <= i < k && #[trigger] is_variant(x, shapes[i], i, 8) by {
            if entries(shapes, k - 1).contains(x) {
                let i = choose|i: int|
                    0 <= i < k - 1 && #[trigger] is_variant(x, shapes[i], i, 8);
                assert(0 <= i < k);
            }
            if is_variant(x, shapes[k - 1], k - 1, 8) {
                assert(0 <= k - 1 < k);
            }
            if exists|i: int|
                0 <= i < k && #[trigger] is_variant(x, shapes[i], i, 8) {
                let i = choose|i: int|
                    0 <= i < k && #[trigger] is_variant(x, shapes[i], i, 8);
                if i < k - 1 {
                    assert(entries(shapes, k - 1).contains(x));
                }
            }
        }
    } else {
        assert(entries(shapes, k) =~= Seq::<Oriented>::empty());
    }
}

/// The anchor of row `k` among the placements of `e` before (dx, dy).
pub open spec fn anchor_of(
    board: Seq<(int, int)>,
    e: Oriented,
    w: int,
    dy: int,
    dx: int,
    k: int,
) -> (int, int)
    decreases dy, dx,
{
    if dx > 0 {
        if fits(board, e.cells, dx - 1, dy) && k == placed(board, e, w, dy, dx - 1).len() {
            (dx - 1, dy)
        } else {
            anchor_of(board, e, w, dy, dx - 1, k)
        }
    } else if dy > 0 && w >= 0 {
        anchor_of(board, e, w, dy - 1, w, k)
    } else {
        (0, 0)
    }
}

/// Anchor (dx1, dy1) stands before anchor (dx2, dy2): higher up, or on the
/// same line and further left.
pub open spec fn anchor_lt(a: (int, int), b: (int, int)) -> bool {
    a.1 < b.1 || (a.1 == b.1 && a.0 < b.0)
}

/// Each row of the placements of an orientation is its row at its anchor,
/// where it fits; and the rows stand in the order of their anchors.
pub proof fn lemma_anchor(board: Seq<(int, int)>, e: Oriented, w: int, dy: int, dx: int, k: int)
    requires
        0 <= k < placed(board, e, w, dy, dx).len(),
        0 <= dx <= w,
        0 <= dy,
    ensures
        ({
            let at = anchor_of(board, e, w, dy, dx, k);
            &&& placed(board, e, w, dy, dx)[k] == row_at(board, e, at.0, at.1)
            &&& fits(board, e.cells, at.0, at.1)
            &&& 0 <= at.0 < w
            &&& 0 <= at.1
            &&& anchor_lt(at, (dx, dy))
            &&& forall|j: int|
                0 <= j < k ==> anchor_lt(#[trigger] anchor_of(board, e, w, dy, dx, j), at)
        }),
    decreases dy, dx,
{
    let at = anchor_of(board, e, w, dy, dx, k);
    if dx > 0 {
        let prev = placed(board, e, w, dy, dx - 1);
        if fits(board, e.cells, dx - 1, dy) && k == prev.len() {
            assert forall|j: int| 0 <= j < k implies anchor_lt(
                #[trigger] anchor_of(board, e, w, dy, dx, j),
                at,
            ) by {
                lemma_anchor(board, e, w, dy, dx - 1, j);
                assert(anchor_of(board, e, w, dy, dx, j) == anchor_of(board, e, w, dy, dx - 1, j));
            }
        } else {
            lemma_anchor(board, e, w, dy, dx - 1, k);
            assert forall|j: int| 0 <= j < k implies anchor_lt(
                #[trigger] anchor_of(board, e, w, dy, dx, j),
                at,
            ) by {
                assert(anchor_of(board, e, w, dy, dx, j) == anchor_of(board, e, w, dy, dx - 1, j));
            }
        }
    } else if dy > 0 && w >= 0 {
        lemma_anchor(board, e, w, dy - 1, w, k);
        assert forall|j: int| 0 <= j < k implies anchor_lt(
            #[trigger] anchor_of(board, e, w, dy, dx, j),
            at,
        ) by {
            assert(anchor_of(board, e, w, dy, dx, j) == anchor_of(board, e, w, dy - 1, w, j));
        }
    }
}

/// Where row `k` of the matrix comes from: the place of its orientation
/// among the orientations, and its anchor.
pub open spec fn origin(
    board: Seq<(int, int)>,
    es: Seq<Oriented>,
    w: int,
    h: int,
    a: int,
    k: int,
) -> (int, int, int)
    decreases a,
{
    if a <= 0 {
        (0, 0, 0)
    } else if k < rows_upto(board, es, w, h, a - 1).len() {
        origin(board, es, w, h, a - 1, k)
    } else {
        let at = anchor_of(
            board,
            es[a - 1],
            w,
            h,
            0,
            k - rows_upto(board, es, w, h, a - 1).len(),
        );
        (a - 1, at.0, at.1)
    }
}

/// Origin `a` stands before origin `b`: an earlier orientation, or the
/// same one at an earlier anchor.
pub open spec fn origin_lt(a: (int, int, int), b: (int, int, int)) -> bool {
    a.0 < b.0 || (a.0 == b.0 && anchor_lt((a.1, a.2), (b.1, b.2)))
}

/// Each row of the matrix is the row of its orientation at its anchor,
/// where that fits within the box of the board; and the rows stand in the
/// order of their origins: orientation by orientation, and those of one
/// orientation line by line from the top, each line from left to right.
pub proof fn lemma_origin(
    board: Seq<(int, int)>,
    es: Seq<Oriented>,
    w: int,
    h: int,
    a: int,
    k: int,
)
    requires
        0 <= a <= es.len(),
        0 <= w,
        0 <= h,
        0 <= k < rows_upto(board, es, w, h, a).len(),
    ensures
        ({
            let o = origin(board, es, w, h, a, k);
            &&& 0 <= o.0 < a
            &&& rows_upto(board, es, w, h, a)[k] == row_at(board, es[o.0], o.1, o.2)
            &&& fits(board, es[o.0].cells, o.1, o.2)
            &&& 0 <= o.1 < w
            &&& 0 <= o.2 < h
            &&& forall|j: int|
                0 <= j < k ==> origin_lt(#[trigger] origin(board, es, w, h, a, j), o)
        }),
    decreases a,
{
    let prev = rows_upto(board, es, w, h, a - 1);
    let o = origin(board, es, w, h, a, k);
    if k < prev.len() {
        lemma_origin(board, es, w, h, a - 1, k);
        assert forall|j: int| 0 <= j < k implies origin_lt(
            #[trigger] origin(board, es, w, h, a, j),
            o,
        ) by {
            assert(origin(board, es, w, h, a, j) == origin(board, es, w, h, a - 1, j));
        }
    } else {
        lemma_anchor(board, es[a - 1], w, h, 0, k - prev.len());
        assert forall|j: int| 0 <= j < k implies origin_lt(
            #[trigger] origin(board, es, w, h, a, j),
            o,
        ) by {
            if j < prev.len() {
                lemma_origin(board, es, w, h, a - 1, j);
            } else {
                assert(anchor_lt(
                    anchor_of(board, es[a - 1], w, h, 0, j - prev.len()),
                    anchor_of(board, es[a - 1], w, h, 0, k - prev.len()),
                ));
                assert(origin(board, es, w, h, a, j).0 == a - 1);
            }
        }
    }
}

/// Every cell that one placement covers is covered by the other, where
/// their rows hold the same columns.
pub proof fn lemma_covered_by_both(
    board: Seq<(int, int)>,
    e1: Oriented,
    e2: Oriented,
    a1: (int, int),
    a2: (int, int),
    p: int,
    i: int,
) -> (j: int)
    requires
        fits(board, e1.cells, a1.0, a1.1),
        fits(board, e2.cells, a2.0, a2.1),
        tidy(e1.cells),
        tidy(e2.cells),
        0 <= e1.index < p,
        0 <= e2.index < p,
        forall|c: int|
            row_at(board, e1, a1.0, a1.1).contains(c) <==> row_at(board, e2, a2.0, a2.1).contains(
                c,
            ),
        0 <= i < e1.cells.len(),
    ensures
        0 <= j < e2.cells.len(),
        moved(e1.cells, a1.0, a1.1, i) == moved(e2.cells, a2.0, a2.1, j),
        e1.index == e2.index,
{
    let n = board.len() as int;
    let cols1 = columns_at(board, e1.cells, a1.0, a1.1);
    let cols2 = columns_at(board, e2.cells, a2.0, a2.1);
    let row1 = row_at(board, e1, a1.0, a1.1);
    let row2 = row_at(board, e2, a2.0, a2.1);
    lemma_row_at(board, e1, a1.0, a1.1, p);
    lemma_row_at(board, e2, a2.0, a2.1, p);
    lemma_ascending(cols1);
    lemma_ascending(cols2);
    // the columns of the pieces
    assert(row1[row1.len() - 1] == n + e1.index);
    assert(row1.contains(n + e1.index));
    let t = choose|t: int| 0 <= t < row2.len() && row2[t] == n + e1.index;
    assert(t == row2.len() - 1) by {
        if t < row2.len() - 1 {
            assert(0 <= row2[t] < n);
        }
    }
    // the column of the cell
    let c = cols1[i];
    assert(board.contains(moved(e1.cells, a1.0, a1.1, i)));
    lemma_index_of(board, moved(e1.cells, a1.0, a1.1, i));
    assert(ascending_of(cols1).contains(c));
    let u = choose|u: int| 0 <= u < ascending_of(cols1).len() && ascending_of(cols1)[u] == c;
    assert(row1[u] == c);
    assert(row1.contains(c));
    let v = choose|v: int| 0 <= v < row2.len() && row2[v] == c;
    assert(v < row2.len() - 1);
    assert(ascending_of(cols2)[v] == c);
    assert(cols2.contains(ascending_of(cols2)[v]));
    let j = choose|j: int| 0 <= j < cols2.len() && cols2[j] == c;
    assert(board.contains(moved(e2.cells, a2.0, a2.1, j)));
    lemma_index_of(board, moved(e2.cells, a2.0, a2.1, j));
    j
}

/// Two placements whose rows hold the same columns are the same
/// placement: the same orientation of the same piece at the same anchor.
pub proof fn lemma_same_columns_same_placement(
    board: Seq<(int, int)>,
    e1: Oriented,
    e2: Oriented,
    a1: (int, int),
    a2: (int, int),
    p: int,
)
    requires
        fits(board, e1.cells, a1.0, a1.1),
        fits(board, e2.cells, a2.0, a2.1),
        tidy(e1.cells),
        tidy(e2.cells),
        canonical(e1.cells),
        canonical(e2.cells),
        e1.cells.len() > 0,
        e2.cells.len() > 0,
        0 <= e1.index < p,
        0 <= e2.index < p,
        forall|c: int|
            row_at(board, e1, a1.0, a1.1).contains(c) <==> row_at(board, e2, a2.0, a2.1).contains(
                c,
            ),
    ensures
        e1 == e2,
        a1 == a2,
{
    lemma_min_x(e1.cells);
    lemma_min_y(e1.cells);
    lemma_min_x(e2.cells);
    lemma_min_y(e2.cells);
    let x1 = choose|i: int| 0 <= i < e1.cells.len() && (#[trigger] e1.cells[i]).0 == 0;
    let y1 = choose|i: int| 0 <= i < e1.cells.len() && (#[trigger] e1.cells[i]).1 == 0;
    let x2 = choose|i: int| 0 <= i < e2.cells.len() && (#[trigger] e2.cells[i]).0 == 0;
    let y2 = choose|i: int| 0 <= i < e2.cells.len() && (#[trigger] e2.cells[i]).1 == 0;
    let jx1 = lemma_covered_by_both(board, e1, e2, a1, a2, p, x1);
    let jy1 = lemma_covered_by_both(board, e1, e2, a1, a2, p, y1);
    let jx2 = lemma_covered_by_both(board, e2, e1, a2, a1, p, x2);
    let jy2 = lemma_covered_by_both(board, e2, e1, a2, a1, p, y2);
    assert(e2.cells[jx1].0 >= 0 && e2.cells[jy1].1 >= 0);
    assert(e1.cells[jx2].0 >= 0 && e1.cells[jy2].1 >= 0);
    assert(a1.0 == a2.0);
    assert(a1.1 == a2.1);
    assert forall|c: (int, int)| e1.cells.contains(c) <==> e2.cells.contains(c) by {
        if e1.cells.contains(c) {
            let i = choose|i: int| 0 <= i < e1.cells.len() && e1.cells[i] == c;
            let j = lemma_covered_by_both(board, e1, e2, a1, a2, p, i);
            assert(e2.cells[j] == c);
        }
        if e2.cells.contains(c) {
            let i = choose|i: int| 0 <= i < e2.cells.len() && e2.cells[i] == c;
            let j = lemma_covered_by_both(board, e2, e1, a2, a1, p, i);
            assert(e1.cells[j] == c);
        }
    }
    lemma_ascending_same(e1.cells, e2.cells);
}

} // verus!
