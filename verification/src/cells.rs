//! The mathematical model of a shape: a sequence of cells with integer
//! coordinates, and the operations on shapes as functions on such sequences.
use vstd::prelude::*;

verus! {

/// A quarter turn counter-clockwise: (x, y) goes to (y, -x).
pub open spec fn rotated(s: Seq<(int, int)>) -> Seq<(int, int)> {
    Seq::new(s.len(), |i: int| (s[i].1, -s[i].0))
}

/// The reflection across the y-axis: (x, y) goes to (-x, y).
pub open spec fn mirrored(s: Seq<(int, int)>) -> Seq<(int, int)> {
    Seq::new(s.len(), |i: int| (-s[i].0, s[i].1))
}

/// Every cell moved by (dx, dy).
pub open spec fn translated(s: Seq<(int, int)>, dx: int, dy: int) -> Seq<(int, int)> {
    Seq::new(s.len(), |i: int| (s[i].0 + dx, s[i].1 + dy))
}

/// The smallest x among the cells; 0 for no cells.
pub open spec fn min_x(s: Seq<(int, int)>) -> int
    decreases s.len(),
{
    if s.len() == 0 {
        0
    } else if s.len() == 1 {
        s[0].0
    } else if s.last().0 < min_x(s.drop_last()) {
        s.last().0
    } else {
        min_x(s.drop_last())
    }
}

/// The smallest y among the cells; 0 for no cells.
pub open spec fn min_y(s: Seq<(int, int)>) -> int
    decreases s.len(),
{
    if s.len() == 0 {
        0
    } else if s.len() == 1 {
        s[0].1
    } else if s.last().1 < min_y(s.drop_last()) {
        s.last().1
    } else {
        min_y(s.drop_last())
    }
}

/// The largest x among the cells; 0 for no cells.
pub open spec fn max_x(s: Seq<(int, int)>) -> int
    decreases s.len(),
{
    if s.len() == 0 {
        0
    } else if s.len() == 1 {
        s[0].0
    } else if s.last().0 > max_x(s.drop_last()) {
        s.last().0
    } else {
        max_x(s.drop_last())
    }
}

/// The largest y among the cells; 0 for no cells.
pub open spec fn max_y(s: Seq<(int, int)>) -> int
    decreases s.len(),
{
    if s.len() == 0 {
        0
    } else if s.len() == 1 {
        s[0].1
    } else if s.last().1 > max_y(s.drop_last()) {
        s.last().1
    } else {
        max_y(s.drop_last())
    }
}

/// Width of the bounding box; 0 for no cells.
pub open spec fn width(s: Seq<(int, int)>) -> int {
    if s.len() == 0 {
        0
    } else {
        max_x(s) - min_x(s) + 1
    }
}

/// Height of the bounding box; 0 for no cells.
pub open spec fn height(s: Seq<(int, int)>) -> int {
    if s.len() == 0 {
        0
    } else {
        max_y(s) - min_y(s) + 1
    }
}

/// The shape moved so that its bounding box starts at the origin.
pub open spec fn anchored(s: Seq<(int, int)>) -> Seq<(int, int)> {
    translated(s, -min_x(s), -min_y(s))
}

/// Strict lexicographic order on cells: by x, then by y.
pub open spec fn cell_lt(a: (int, int), b: (int, int)) -> bool {
    a.0 < b.0 || (a.0 == b.0 && a.1 < b.1)
}

/// Lexicographic order on cells: by x, then by y.
pub open spec fn cell_le(a: (int, int), b: (int, int)) -> bool {
    a.0 < b.0 || (a.0 == b.0 && a.1 <= b.1)
}

/// `cell_le` as a relation that can be handed to a sort.
pub open spec fn cell_order() -> spec_fn((int, int), (int, int)) -> bool {
    |a: (int, int), b: (int, int)| cell_le(a, b)
}

/// The cells in lexicographic order.
pub open spec fn sorted(s: Seq<(int, int)>) -> Seq<(int, int)> {
    s.sort_by(cell_order())
}

/// Each cell stands before every later one in the strict order.
pub open spec fn strictly_ascending(s: Seq<(int, int)>) -> bool {
    forall|i: int, j: int| 0 <= i < j < s.len() ==> cell_lt(#[trigger] s[i], #[trigger] s[j])
}

/// The canonical form of a shape: anchored at the origin, cells in order.
pub open spec fn normalized(s: Seq<(int, int)>) -> Seq<(int, int)> {
    sorted(anchored(s))
}

/// The smallest x is the x of some cell, and no cell has a smaller one.
pub proof fn lemma_min_x(s: Seq<(int, int)>)
    requires
        s.len() > 0,
    ensures
        forall|i: int| 0 <= i < s.len() ==> min_x(s) <= (#[trigger] s[i]).0,
        exists|i: int| 0 <= i < s.len() && (#[trigger] s[i]).0 == min_x(s),
    decreases s.len(),
{
    if s.len() > 1 {
        let t = s.drop_last();
        lemma_min_x(t);
        let k = choose|i: int| 0 <= i < t.len() && (#[trigger] t[i]).0 == min_x(t);
        assert(t[k] == s[k]);
        assert forall|i: int| 0 <= i < s.len() implies min_x(s) <= (#[trigger] s[i]).0 by {
            if i < t.len() {
                assert(t[i] == s[i]);
            }
        }
        if s.last().0 < min_x(t) {
            assert(s[s.len() - 1].0 == min_x(s));
        } else {
            assert(s[k].0 == min_x(s));
        }
    } else {
        assert(s[0].0 == min_x(s));
    }
}

/// The smallest y is the y of some cell, and no cell has a smaller one.
pub proof fn lemma_min_y(s: Seq<(int, int)>)
    requires
        s.len() > 0,
    ensures
        forall|i: int| 0 <= i < s.len() ==> min_y(s) <= (#[trigger] s[i]).1,
        exists|i: int| 0 <= i < s.len() && (#[trigger] s[i]).1 == min_y(s),
    decreases s.len(),
{
    if s.len() > 1 {
        let t = s.drop_last();
        lemma_min_y(t);
        let k = choose|i: int| 0 <= i < t.len() && (#[trigger] t[i]).1 == min_y(t);
        assert(t[k] == s[k]);
        assert forall|i: int| 0 <= i < s.len() implies min_y(s) <= (#[trigger] s[i]).1 by {
            if i < t.len() {
                assert(t[i] == s[i]);
            }
        }
        if s.last().1 < min_y(t) {
            assert(s[s.len() - 1].1 == min_y(s));
        } else {
            assert(s[k].1 == min_y(s));
        }
    } else {
        assert(s[0].1 == min_y(s));
    }
}

/// The largest x is the x of some cell, and no cell has a larger one.
pub proof fn lemma_max_x(s: Seq<(int, int)>)
    requires
        s.len() > 0,
    ensures
        forall|i: int| 0 <= i < s.len() ==> max_x(s) >= (#[trigger] s[i]).0,
        exists|i: int| 0 <= i < s.len() && (#[trigger] s[i]).0 == max_x(s),
    decreases s.len(),
{
    if s.len() > 1 {
        let t = s.drop_last();
        lemma_max_x(t);
        let k = choose|i: int| 0 <= i < t.len() && (#[trigger] t[i]).0 == max_x(t);
        assert(t[k] == s[k]);
        assert forall|i: int| 0 <= i < s.len() implies max_x(s) >= (#[trigger] s[i]).0 by {
            if i < t.len() {
                assert(t[i] == s[i]);
            }
        }
        if s.last().0 > max_x(t) {
            assert(s[s.len() - 1].0 == max_x(s));
        } else {
            assert(s[k].0 == max_x(s));
        }
    } else {
        assert(s[0].0 == max_x(s));
    }
}

/// The largest y is the y of some cell, and no cell has a larger one.
pub proof fn lemma_max_y(s: Seq<(int, int)>)
    requires
        s.len() > 0,
    ensures
        forall|i: int| 0 <= i < s.len() ==> max_y(s) >= (#[trigger] s[i]).1,
        exists|i: int| 0 <= i < s.len() && (#[trigger] s[i]).1 == max_y(s),
    decreases s.len(),
{
    if s.len() > 1 {
        let t = s.drop_last();
        lemma_max_y(t);
        let k = choose|i: int| 0 <= i < t.len() && (#[trigger] t[i]).1 == max_y(t);
        assert(t[k] == s[k]);
        assert forall|i: int| 0 <= i < s.len() implies max_y(s) >= (#[trigger] s[i]).1 by {
            if i < t.len() {
                assert(t[i] == s[i]);
            }
        }
        if s.last().1 > max_y(t) {
            assert(s[s.len() - 1].1 == max_y(s));
        } else {
            assert(s[k].1 == max_y(s));
        }
    } else {
        assert(s[0].1 == max_y(s));
    }
}

/// A lower bound that some cell attains is the smallest x.
pub proof fn lemma_min_x_is(s: Seq<(int, int)>, m: int, k: int)
    requires
        0 <= k < s.len(),
        s[k].0 == m,
        forall|i: int| 0 <= i < s.len() ==> m <= (#[trigger] s[i]).0,
    ensures
        min_x(s) == m,
{
    lemma_min_x(s);
}

/// A lower bound that some cell attains is the smallest y.
pub proof fn lemma_min_y_is(s: Seq<(int, int)>, m: int, k: int)
    requires
        0 <= k < s.len(),
        s[k].1 == m,
        forall|i: int| 0 <= i < s.len() ==> m <= (#[trigger] s[i]).1,
    ensures
        min_y(s) == m,
{
    lemma_min_y(s);
}

/// The order of the cells is a total order.
pub proof fn lemma_cell_order_total()
    ensures
        vstd::relations::total_ordering(cell_order()),
{
    let r = cell_order();
    assert(vstd::relations::reflexive(r));
    assert(vstd::relations::antisymmetric(r));
    assert(vstd::relations::transitive(r));
    assert(vstd::relations::strongly_connected(r));
}

/// Sorting keeps the cells and their number, and puts them in order; where
/// no cell occurs twice the order is strict.
pub proof fn lemma_sorted(s: Seq<(int, int)>)
    ensures
        sorted(s).len() == s.len(),
        sorted(s).to_multiset() == s.to_multiset(),
        forall|i: int| 0 <= i < s.len() ==> sorted(s).contains(#[trigger] s[i]),
        forall|i: int| 0 <= i < s.len() ==> s.contains(#[trigger] sorted(s)[i]),
        forall|i: int, j: int|
            0 <= i < j < s.len() ==> cell_le(#[trigger] sorted(s)[i], #[trigger] sorted(s)[j]),
        s.no_duplicates() ==> sorted(s).no_duplicates() && strictly_ascending(sorted(s)),
{
    broadcast use vstd::seq_lib::group_to_multiset_ensures;

    let t = sorted(s);
    s.lemma_sort_by_ensures(cell_order());
    assert(t.to_multiset() == s.to_multiset());
    assert(t.len() == t.to_multiset().len());
    assert(s.len() == s.to_multiset().len());
    assert forall|i: int| 0 <= i < s.len() implies t.contains(#[trigger] s[i]) by {
        assert(s.contains(s[i]));
        assert(s.to_multiset().count(s[i]) > 0);
    }
    assert forall|i: int| 0 <= i < s.len() implies s.contains(#[trigger] t[i]) by {
        assert(t.contains(t[i]));
        assert(t.to_multiset().count(t[i]) > 0);
    }
    assert forall|i: int, j: int| 0 <= i < j < s.len() implies cell_le(
        #[trigger] t[i],
        #[trigger] t[j],
    ) by {
        assert(cell_order()(t[i], t[j]));
    }
    if s.no_duplicates() {
        s.lemma_multiset_has_no_duplicates();
        t.lemma_multiset_has_no_duplicates_conv();
        assert forall|i: int, j: int| 0 <= i < j < t.len() implies cell_lt(
            #[trigger] t[i],
            #[trigger] t[j],
        ) by {
            assert(cell_le(t[i], t[j]));
            assert(t[i] != t[j]);
        }
    }
}

/// A sequence in order that holds the same cells as `s`, each as often, is
/// the sorted `s`.
pub proof fn lemma_sorted_is(s: Seq<(int, int)>, t: Seq<(int, int)>)
    requires
        t.to_multiset() == s.to_multiset(),
        forall|i: int, j: int| 0 <= i < j < t.len() ==> cell_le(#[trigger] t[i], #[trigger] t[j]),
    ensures
        t == sorted(s),
{
    s.lemma_sort_by_ensures(cell_order());
    lemma_cell_order_total();
    assert(vstd::relations::sorted_by(t, cell_order()));
    vstd::seq_lib::lemma_sorted_unique(t, sorted(s), cell_order());
}

/// Four quarter turns bring every shape back, and so do two reflections;
/// the canonical forms then agree as well.
pub proof fn lemma_turns_and_reflections_cancel(s: Seq<(int, int)>)
    ensures
        rotated(rotated(rotated(rotated(s)))) == s,
        mirrored(mirrored(s)) == s,
        normalized(rotated(rotated(rotated(rotated(s))))) == normalized(s),
        normalized(mirrored(mirrored(s))) == normalized(s),
{
    assert(rotated(rotated(rotated(rotated(s)))) =~= s);
    assert(mirrored(mirrored(s)) =~= s);
}

/// The canonical form of a shape starts at the origin in both directions,
/// and where no cell occurs twice its cells are in strictly ascending
/// lexicographic order.
pub proof fn lemma_normalized_is_canonical(s: Seq<(int, int)>)
    ensures
        normalized(s).len() == s.len(),
        min_x(normalized(s)) == 0,
        min_y(normalized(s)) == 0,
        s.no_duplicates() ==> strictly_ascending(normalized(s)),
{
    let a = anchored(s);
    let n = normalized(s);
    lemma_sorted(a);
    if s.len() > 0 {
        lemma_min_x(s);
        lemma_min_y(s);
        let kx = choose|i: int| 0 <= i < s.len() && (#[trigger] s[i]).0 == min_x(s);
        let ky = choose|i: int| 0 <= i < s.len() && (#[trigger] s[i]).1 == min_y(s);
        assert(a[kx].0 == 0);
        assert(a[ky].1 == 0);
        assert(n.contains(a[kx]));
        assert(n.contains(a[ky]));
        let jx = choose|j: int| 0 <= j < n.len() && n[j] == a[kx];
        let jy = choose|j: int| 0 <= j < n.len() && n[j] == a[ky];
        assert forall|i: int| 0 <= i < n.len() implies 0 <= (#[trigger] n[i]).0 && 0
            <= n[i].1 by {
            assert(a.contains(n[i]));
            let m = choose|m: int| 0 <= m < a.len() && a[m] == n[i];
            assert(a[m].0 == s[m].0 - min_x(s));
        }
        lemma_min_x_is(n, 0, jx);
        lemma_min_y_is(n, 0, jy);
    }
    if s.no_duplicates() {
        assert(a.no_duplicates()) by {
            assert forall|i: int, j: int|
                0 <= i < a.len() && 0 <= j < a.len() && i != j implies a[i] != a[j] by {
                assert(s[i] != s[j]);
            }
        }
    }
}

/// Putting a value into a sequence adds it once to what the sequence holds.
pub proof fn lemma_insert_adds_one<A>(s: Seq<A>, k: int, c: A)
    requires
        0 <= k <= s.len(),
    ensures
        s.insert(k, c).to_multiset() == s.to_multiset().insert(c),
{
    broadcast use vstd::seq_lib::group_to_multiset_ensures;

    let t = s.insert(k, c);
    assert(t.remove(k) =~= s);
    assert(t[k] == c);
    assert(t.remove(k).to_multiset() =~= t.to_multiset().remove(t[k]));
    assert(t.contains(c));
    assert(t.to_multiset().count(c) > 0);
    assert(t.to_multiset() =~= s.to_multiset().insert(c));
}

/// Moving a shape by its negated offset brings its offset to the origin:
/// the least x and the least y are then 0, and no coordinate is negative.
/// The cells keep their number and their order.
pub proof fn lemma_anchored(s: Seq<(int, int)>)
    ensures
        anchored(s) == translated(s, -min_x(s), -min_y(s)),
        anchored(s).len() == s.len(),
        s.len() > 0 ==> min_x(anchored(s)) == 0 && min_y(anchored(s)) == 0,
        forall|i: int|
            0 <= i < s.len() ==> (#[trigger] anchored(s)[i]) == (
                s[i].0 - min_x(s),
                s[i].1 - min_y(s),
            ) && anchored(s)[i].0 >= 0 && anchored(s)[i].1 >= 0,
{
    let a = anchored(s);
    if s.len() > 0 {
        lemma_min_x(s);
        lemma_min_y(s);
        let kx = choose|i: int| 0 <= i < s.len() && (#[trigger] s[i]).0 == min_x(s);
        let ky = choose|i: int| 0 <= i < s.len() && (#[trigger] s[i]).1 == min_y(s);
        assert forall|i: int| 0 <= i < a.len() implies 0 <= (#[trigger] a[i]).0 && 0 <= a[i].1 by {
            assert(a[i].0 == s[i].0 - min_x(s));
        }
        assert(a[kx].0 == 0);
        assert(a[ky].1 == 0);
        lemma_min_x_is(a, 0, kx);
        lemma_min_y_is(a, 0, ky);
    }
}

/// Two lists of cells in strictly ascending order that hold the same
/// cells are the same list.
pub proof fn lemma_ascending_same(a: Seq<(int, int)>, b: Seq<(int, int)>)
    requires
        strictly_ascending(a),
        strictly_ascending(b),
        forall|c: (int, int)| a.contains(c) <==> b.contains(c),
    ensures
        a == b,
    decreases a.len(),
{
    if a.len() == 0 {
        if b.len() > 0 {
            assert(b.contains(b[0]));
        }
        assert(a =~= b);
    } else {
        assert(a.contains(a[0]));
        let i = choose|i: int| 0 <= i < b.len() && b[i] == a[0];
        assert(b.contains(b[0]));
        let j = choose|j: int| 0 <= j < a.len() && a[j] == b[0];
        if i > 0 {
            assert(cell_lt(b[0], b[i]));
        }
        if j > 0 {
            assert(cell_lt(a[0], a[j]));
        }
        assert(a[0] == b[0]);
        let ra = a.drop_first();
        let rb = b.drop_first();
        assert forall|c: (int, int)| ra.contains(c) <==> rb.contains(c) by {
            if ra.contains(c) {
                let k = choose|k: int| 0 <= k < ra.len() && ra[k] == c;
                assert(a[k + 1] == c);
                assert(cell_lt(a[0], a[k + 1]));
                assert(a.contains(c));
                let m = choose|m: int| 0 <= m < b.len() && b[m] == c;
                assert(m > 0);
                assert(rb[m - 1] == c);
            }
            if rb.contains(c) {
                let k = choose|k: int| 0 <= k < rb.len() && rb[k] == c;
                assert(b[k + 1] == c);
                assert(cell_lt(b[0], b[k + 1]));
                assert(b.contains(c));
                let m = choose|m: int| 0 <= m < a.len() && a[m] == c;
                assert(m > 0);
                assert(ra[m - 1] == c);
            }
        }
        assert forall|x: int, y: int| 0 <= x < y < ra.len() implies cell_lt(
            #[trigger] ra[x],
            #[trigger] ra[y],
        ) by {
            assert(cell_lt(a[x + 1], a[y + 1]));
        }
        assert forall|x: int, y: int| 0 <= x < y < rb.len() implies cell_lt(
            #[trigger] rb[x],
            #[trigger] rb[y],
        ) by {
            assert(cell_lt(b[x + 1], b[y + 1]));
        }
        lemma_ascending_same(ra, rb);
        assert(a =~= seq![a[0]] + ra);
        assert(b =~= seq![b[0]] + rb);
    }
}

} // verus!
