//! The link structure of the sparse matrix: one horizontal ring of column
//! headers anchored at the root, and for each column one vertical ring of
//! its ones anchored at the header.  Taking a node out of its ring and
//! putting it back are inverse to each other, so the links are determined
//! by the list of the nodes that are currently taken out.
use vstd::prelude::*;
use crate::ring::{
    count_in, lemma_count_bounds, lemma_count_less_one, lemma_count_same, lemma_ring_append,
    lemma_ring_extend, lemma_ring_frame, lemma_ring_unlink, ring_ok,
};

verus! {

/// Where the nodes stand.  Node 0 is the root, nodes `1..=n` are the column
/// headers, and the nodes after them are the ones of the rows, row by row.
pub struct Layout {
    /// The number of columns.
    pub n: int,
    /// For each node the header of its column; a header's is itself.
    pub col: Seq<usize>,
    /// For each node of a row the first node of that row.
    pub row: Seq<usize>,
    /// For each node of a row the last node of that row.
    pub last: Seq<int>,
}

impl Layout {
    /// The number of nodes.
    pub open spec fn total(self) -> int {
        self.col.len() as int
    }

    /// Node `y` stands in the row of node `x`.
    pub open spec fn in_row(self, x: int, y: int) -> bool {
        self.row[x] <= y <= self.last[x]
    }

    /// The headers are their own columns; every one of a row stands in a
    /// column, between the first and the last node of its row; and the nodes of
    /// a row agree on the row and stand in different columns.
    pub open spec fn shape(self) -> bool {
        &&& 0 <= self.n < self.total()
        &&& self.row.len() == self.total()
        &&& self.last.len() == self.total()
        &&& forall|x: int| 0 <= x <= self.n ==> #[trigger] self.col[x] == x
        &&& forall|x: int|
            #![trigger self.row[x]]
            #![trigger self.last[x]]
            0 <= x <= self.n ==> self.row[x] == x && self.last[x] == x
        &&& forall|x: int|
            self.n < x < self.total() ==> 1 <= #[trigger] self.col[x] <= self.n && self.n
                < self.row[x] <= x <= self.last[x]
        &&& forall|x: int, y: int|
            self.n < x < self.total() && self.n < y < self.total() && #[trigger] self.in_row(x, y)
                ==> self.row[y] == self.row[x] && self.last[y] == self.last[x] && (x != y
                ==> self.col[x] != self.col[y])
    }

    /// Every row is there to its end.
    pub open spec fn complete(self) -> bool {
        forall|x: int| self.n < x < self.total() ==> #[trigger] self.last[x] < self.total()
    }

    /// The layout is in shape and every row is there to its end.
    pub open spec fn ok(self) -> bool {
        self.shape() && self.complete()
    }

    /// The node that stands `t + 1` places to the right of `i` in its row,
    /// around the end of the row and on from its start.
    pub open spec fn other(self, i: int, t: int) -> int {
        if i + 1 + t <= self.last[i] {
            i + 1 + t
        } else {
            i + t - (self.last[i] - self.row[i])
        }
    }

    /// The nodes that follow `i` in its row, around the row and back to the
    /// node before `i`.
    pub open spec fn others(self, i: int) -> Seq<int> {
        Seq::new((self.last[i] - self.row[i]) as nat, |t: int| self.other(i, t))
    }

    /// The other nodes of a row are nodes of that row, each met once, and
    /// the links within the row lead from each to the next.
    pub proof fn lemma_others(self, l: Links, i: int)
        requires
            self.ok(),
            rows_ok(l, self),
            self.n < i < self.total(),
        ensures
            self.others(i).len() == self.last[i] - self.row[i],
            self.other(i, -1) == i,
            self.other(i, self.others(i).len() as int) == i,
            forall|t: int|
                0 <= t < self.others(i).len() ==> {
                    let j = #[trigger] self.other(i, t);
                    &&& self.n < j < self.total()
                    &&& j != i
                    &&& self.in_row(i, j)
                    &&& self.row[j] == self.row[i]
                    &&& self.last[j] == self.last[i]
                    &&& self.col[j] != self.col[i]
                },
            forall|t: int, s: int|
                0 <= t < s < self.others(i).len() ==> #[trigger] self.other(i, t)
                    != #[trigger] self.other(i, s),
            forall|t: int|
                -1 <= t < self.others(i).len() ==> l.right[#[trigger] self.other(i, t)]
                    == self.other(i, t + 1),
            forall|t: int|
                0 <= t <= self.others(i).len() ==> l.left[#[trigger] self.other(i, t)]
                    == self.other(i, t - 1),
    {
        assert(1 <= self.col[i]);
        assert(self.last[i] < self.total());
        assert(self.in_row(i, i));
        assert forall|t: int| 0 <= t < self.others(i).len() implies ({
            let j = #[trigger] self.other(i, t);
            &&& self.n < j < self.total()
            &&& j != i
            &&& self.in_row(i, j)
            &&& self.row[j] == self.row[i]
            &&& self.last[j] == self.last[i]
            &&& self.col[j] != self.col[i]
        }) by {
            let j = self.other(i, t);
            assert(1 <= self.col[j]);
            assert(self.in_row(i, j));
        }
        assert forall|t: int| -1 <= t < self.others(i).len() implies l.right[#[trigger] self.other(
            i,
            t,
        )] == self.other(i, t + 1) by {
            let j = self.other(i, t);
            assert(1 <= self.col[j]);
            assert(self.in_row(i, j));
        }
        assert forall|t: int| 0 <= t <= self.others(i).len() implies l.left[#[trigger] self.other(
            i,
            t,
        )] == self.other(i, t - 1) by {
            let j = self.other(i, t);
            assert(1 <= self.col[j]);
            assert(self.in_row(i, j));
        }
    }
}

/// The four links of every node, and the number of linked ones of every
/// column.
pub struct Links {
    pub left: Seq<usize>,
    pub right: Seq<usize>,
    pub up: Seq<usize>,
    pub down: Seq<usize>,
    pub size: Seq<usize>,
}

/// The ones of column `h` that are linked: those not in `dead`.
pub open spec fn vmem(lay: Layout, dead: Set<int>, h: int) -> spec_fn(int) -> bool {
    |m: int| lay.n < m < lay.total() && lay.col[m] == h && !dead.contains(m)
}

/// The headers that are linked: those not in `dead`.
pub open spec fn hmem(dead: Set<int>) -> spec_fn(int) -> bool {
    |m: int| !dead.contains(m)
}

/// The ring of column `h` is linked in order, and its size is right.
pub open spec fn column_ok(l: Links, lay: Layout, dead: Set<int>, h: int) -> bool {
    &&& ring_ok(l.down, l.up, h, lay.n + 1, lay.total(), vmem(lay, dead, h))
    &&& l.size[h] == count_in(vmem(lay, dead, h), lay.n + 1, lay.total())
}

/// The links of the nodes of a row to their neighbours in the row never
/// change: each row is a ring of its own.
pub open spec fn rows_ok(l: Links, lay: Layout) -> bool {
    forall|x: int|
        #![trigger l.right[x]]
        #![trigger l.left[x]]
        lay.n < x < lay.total() ==> l.right[x] == (if x == lay.last[x] {
            lay.row[x] as int
        } else {
            x + 1
        }) && l.left[x] == (if x == lay.row[x] {
            lay.last[x]
        } else {
            x - 1
        })
}

/// Every ring is linked in order, the nodes in `dead` left out.
pub open spec fn in_order(l: Links, lay: Layout, dead: Set<int>) -> bool {
    &&& lay.shape()
    &&& l.left.len() == lay.total()
    &&& l.right.len() == lay.total()
    &&& l.up.len() == lay.total()
    &&& l.down.len() == lay.total()
    &&& l.size.len() == lay.n + 1
    &&& l.up[0] == 0
    &&& l.down[0] == 0
    &&& l.size[0] == 0
    &&& ring_ok(l.right, l.left, 0, 1, lay.n + 1, hmem(dead))
    &&& forall|h: int| 1 <= h <= lay.n ==> #[trigger] column_ok(l, lay, dead, h)
    &&& forall|x: int|
        #![trigger l.up[x]]
        #![trigger l.down[x]]
        0 <= x < lay.total() ==> l.up[x] < lay.total() && l.down[x] < lay.total()
    &&& forall|x: int|
        #![trigger l.left[x]]
        #![trigger l.right[x]]
        0 <= x <= lay.n ==> l.left[x] <= lay.n && l.right[x] <= lay.n
}

/// The links after node `x` is taken out of its ring: a header out of the
/// horizontal ring, a one out of its column.
pub open spec fn unlink(l: Links, lay: Layout, x: int) -> Links {
    if x <= lay.n {
        Links {
            right: l.right.update(l.left[x] as int, l.right[x]),
            left: l.left.update(l.right[x] as int, l.left[x]),
            ..l
        }
    } else {
        Links {
            down: l.down.update(l.up[x] as int, l.down[x]),
            up: l.up.update(l.down[x] as int, l.up[x]),
            size: l.size.update(lay.col[x] as int, (l.size[lay.col[x] as int] - 1) as usize),
            ..l
        }
    }
}

/// The links after node `x` is put back between the neighbours that its own
/// links still name.
pub open spec fn relink(l: Links, lay: Layout, x: int) -> Links {
    if x <= lay.n {
        Links {
            right: l.right.update(l.left[x] as int, x as usize),
            left: l.left.update(l.right[x] as int, x as usize),
            ..l
        }
    } else {
        Links {
            down: l.down.update(l.up[x] as int, x as usize),
            up: l.up.update(l.down[x] as int, x as usize),
            size: l.size.update(lay.col[x] as int, (l.size[lay.col[x] as int] + 1) as usize),
            ..l
        }
    }
}

/// Taking a linked node out leaves every ring linked in order, and putting
/// it back at once restores every link.
pub proof fn lemma_unlink(l: Links, lay: Layout, dead: Set<int>, x: int)
    requires
        in_order(l, lay, dead),
        1 <= x < lay.total(),
        !dead.contains(x),
    ensures
        in_order(unlink(l, lay, x), lay, dead.insert(x)),
        relink(unlink(l, lay, x), lay, x) == l,
        x > lay.n ==> l.size[lay.col[x] as int] >= 1,
        rows_ok(l, lay) ==> rows_ok(unlink(l, lay, x), lay),
{
    let l2 = unlink(l, lay, x);
    let dead2 = dead.insert(x);
    let n = lay.n;
    let total = lay.total();
    if x <= n {
        let p = hmem(dead);
        let q = hmem(dead2);
        lemma_ring_unlink(l.right, l.left, 0, 1, n + 1, p, q, x);
        assert forall|h: int| 1 <= h <= n implies #[trigger] column_ok(l2, lay, dead2, h) by {
            assert(column_ok(l, lay, dead, h));
            lemma_ring_frame(
                l.down,
                l.up,
                l2.down,
                l2.up,
                h,
                n + 1,
                total,
                vmem(lay, dead, h),
                vmem(lay, dead2, h),
            );
            lemma_count_same(vmem(lay, dead, h), vmem(lay, dead2, h), n + 1, total);
        }
        let r3 = relink(l2, lay, x);
        assert(r3.right =~= l.right);
        assert(r3.left =~= l.left);
    } else {
        let h = lay.col[x] as int;
        let p = vmem(lay, dead, h);
        let q = vmem(lay, dead2, h);
        assert(column_ok(l, lay, dead, h));
        lemma_ring_unlink(l.down, l.up, h, n + 1, total, p, q, x);
        lemma_count_less_one(p, q, n + 1, total, x);
        let u = l.up[x] as int;
        let d = l.down[x] as int;
        assert forall|k: int| 1 <= k <= n implies #[trigger] column_ok(l2, lay, dead2, k) by {
            if k != h {
                assert(column_ok(l, lay, dead, k));
                lemma_ring_frame(
                    l.down,
                    l.up,
                    l2.down,
                    l2.up,
                    k,
                    n + 1,
                    total,
                    vmem(lay, dead, k),
                    vmem(lay, dead2, k),
                );
                lemma_count_same(vmem(lay, dead, k), vmem(lay, dead2, k), n + 1, total);
            }
        }
        lemma_ring_frame(l.right, l.left, l2.right, l2.left, 0, 1, n + 1, hmem(dead), hmem(dead2));
        let r3 = relink(l2, lay, x);
        assert(r3.down =~= l.down);
        assert(r3.up =~= l.up);
        assert(r3.size =~= l.size);
    }
}

/// The links of a matrix without rows: the headers in a ring with the root,
/// every column a ring of its header alone.
pub open spec fn initial_links(n: int) -> Links {
    Links {
        left: Seq::new((n + 1) as nat, |x: int| if x == 0 { n as usize } else { (x - 1) as usize }),
        right: Seq::new((n + 1) as nat, |x: int| if x == n { 0usize } else { (x + 1) as usize }),
        up: Seq::new((n + 1) as nat, |x: int| x as usize),
        down: Seq::new((n + 1) as nat, |x: int| x as usize),
        size: Seq::new((n + 1) as nat, |x: int| 0usize),
    }
}

/// The layout of a matrix without rows.
pub open spec fn initial_layout(n: int) -> Layout {
    Layout {
        n: n,
        col: Seq::new((n + 1) as nat, |x: int| x as usize),
        row: Seq::new((n + 1) as nat, |x: int| x as usize),
        last: Seq::new((n + 1) as nat, |x: int| x),
    }
}

/// The links of a matrix without rows are in order.
pub proof fn lemma_initial(n: int)
    requires
        0 <= n < usize::MAX,
    ensures
        in_order(initial_links(n), initial_layout(n), Set::empty()),
        rows_ok(initial_links(n), initial_layout(n)),
        initial_layout(n).ok(),
{
    let l = initial_links(n);
    let lay = initial_layout(n);
    let dead = Set::<int>::empty();
    let p = hmem(dead);
    assert forall|x: int|
        #![trigger l.right[x]]
        #![trigger l.left[x]]
        x == 0 || (1 <= x < n + 1 && p(x)) implies l.right[x] == crate::ring::first_from(
        p,
        crate::ring::after(0, 1, x),
        n + 1,
        0,
    ) && l.left[x] == crate::ring::last_upto(p, crate::ring::before(0, n + 1, x), 0, 0) by {
        if x < n {
            assert(p(x + 1));
        }
        if x == 0 {
            if n > 0 {
                assert(p(n));
            }
        } else if x > 1 {
            assert(p(x - 1));
        }
    }
    assert forall|h: int| 1 <= h <= n implies #[trigger] column_ok(l, lay, dead, h) by {
        let q = vmem(lay, dead, h);
        assert forall|x: int|
            #![trigger l.down[x]]
            #![trigger l.up[x]]
            x == h || (n + 1 <= x < n + 1 && q(x)) implies l.down[x] == crate::ring::first_from(
            q,
            crate::ring::after(h, n + 1, x),
            n + 1,
            h,
        ) && l.up[x] == crate::ring::last_upto(q, crate::ring::before(h, n + 1, x), n, h) by {}
    }
}

/// The layout with one more node at the end: a one in column `h`.
pub open spec fn appended_layout(lay: Layout, h: int, first: int, last: int) -> Layout {
    Layout {
        n: lay.n,
        col: lay.col.push(h as usize),
        row: lay.row.push(first as usize),
        last: lay.last.push(last),
    }
}

/// The links with one more node at the end, linked in as the lowest one of
/// column `h`, and with `left` and `right` as its neighbours in its row.
pub open spec fn appended_links(l: Links, h: int, left: int, right: int) -> Links {
    let x = l.up.len() as int;
    let u = l.up[h];
    Links {
        left: l.left.push(left as usize),
        right: l.right.push(right as usize),
        up: l.up.push(u).update(h, x as usize),
        down: l.down.push(h as usize).update(u as int, x as usize),
        size: l.size.update(h, (l.size[h] + 1) as usize),
    }
}

/// A one added below all others keeps every ring linked in order.
pub proof fn lemma_append(
    l: Links,
    lay: Layout,
    h: int,
    first: int,
    last: int,
    left: int,
    right: int,
)
    requires
        in_order(l, lay, Set::empty()),
        1 <= h <= lay.n,
        lay.total() < usize::MAX,
        appended_layout(lay, h, first, last).shape(),
    ensures
        in_order(
            appended_links(l, h, left, right),
            appended_layout(lay, h, first, last),
            Set::empty(),
        ),
        l.size[h] < lay.total(),
{
    let dead = Set::<int>::empty();
    let lay2 = appended_layout(lay, h, first, last);
    let l2 = appended_links(l, h, left, right);
    let n = lay.n;
    let total = lay.total();
    let x = total;
    let u = l.up[h] as int;
    assert(column_ok(l, lay, dead, h));
    lemma_count_bounds(vmem(lay, dead, h), n + 1, total);
    lemma_ring_append(l.down, l.up, h, n + 1, total, vmem(lay, dead, h), vmem(lay2, dead, h));
    lemma_count_same(vmem(lay, dead, h), vmem(lay2, dead, h), n + 1, total);
    assert(vmem(lay2, dead, h)(total));
    assert forall|k: int| 1 <= k <= n implies #[trigger] column_ok(l2, lay2, dead, k) by {
        if k != h {
            assert(column_ok(l, lay, dead, k));
            assert(u == h || vmem(lay, dead, h)(u));
            lemma_ring_extend(
                l.down,
                l.up,
                l2.down,
                l2.up,
                k,
                n + 1,
                total,
                vmem(lay, dead, k),
                vmem(lay2, dead, k),
            );
        }
    }
    lemma_ring_frame(l.right, l.left, l2.right, l2.left, 0, 1, n + 1, hmem(dead), hmem(dead));
}

/// The nodes that are taken out, in the order in which they were.
pub open spec fn log_ok(lay: Layout, log: Seq<int>) -> bool {
    &&& log.no_duplicates()
    &&& forall|i: int| 0 <= i < log.len() ==> 1 <= #[trigger] log[i] < lay.total()
}

/// The set of the nodes that are taken out.
pub open spec fn dead_of(log: Seq<int>) -> Set<int> {
    Set::new(|x: int| log.contains(x))
}

/// The links that result from `base` when the nodes of `log` are taken
/// out one after the other.
pub open spec fn links_after(base: Links, lay: Layout, log: Seq<int>) -> Links
    decreases log.len(),
{
    if log.len() == 0 {
        base
    } else {
        unlink(links_after(base, lay, log.drop_last()), lay, log.last())
    }
}

/// A further entry of the log is a further node that is taken out.
pub proof fn lemma_dead_push(log: Seq<int>, x: int)
    ensures
        dead_of(log.push(x)) == dead_of(log).insert(x),
        dead_of(Seq::empty()) == Set::<int>::empty(),
{
    assert forall|y: int|
        dead_of(log.push(x)).contains(y) == #[trigger] dead_of(log).insert(x).contains(y) by {
        if log.contains(y) {
            let i = choose|i: int| 0 <= i < log.len() && log[i] == y;
            assert(log.push(x)[i] == y);
        }
        if y == x {
            assert(log.push(x)[log.len() as int] == y);
        }
        if log.push(x).contains(y) {
            let i = choose|i: int| 0 <= i < log.push(x).len() && log.push(x)[i] == y;
            if i < log.len() {
                assert(log[i] == y);
            }
        }
    }
    assert(dead_of(log.push(x)) =~= dead_of(log).insert(x));
    assert(dead_of(Seq::<int>::empty()) =~= Set::<int>::empty());
}

/// Without its last entry a log is still a log, and that entry is not in it.
pub proof fn lemma_log_prefix(lay: Layout, log: Seq<int>)
    requires
        log_ok(lay, log),
        log.len() > 0,
    ensures
        log_ok(lay, log.drop_last()),
        !dead_of(log.drop_last()).contains(log.last()),
        dead_of(log) == dead_of(log.drop_last()).insert(log.last()),
{
    let p = log.drop_last();
    assert forall|i: int| 0 <= i < p.len() implies 1 <= #[trigger] p[i] < lay.total() by {
        assert(p[i] == log[i]);
    }
    if p.contains(log.last()) {
        let i = choose|i: int| 0 <= i < p.len() && p[i] == log.last();
        assert(log[i] == log[log.len() - 1]);
    }
    lemma_dead_push(p, log.last());
    assert(p.push(log.last()) =~= log);
}

/// However many nodes are taken out, every ring stays linked in order.
pub proof fn lemma_links_after(base: Links, lay: Layout, log: Seq<int>)
    requires
        in_order(base, lay, Set::empty()),
        log_ok(lay, log),
    ensures
        in_order(links_after(base, lay, log), lay, dead_of(log)),
        rows_ok(base, lay) ==> rows_ok(links_after(base, lay, log), lay),
    decreases log.len(),
{
    if log.len() == 0 {
        lemma_dead_push(log, 0);
        assert(dead_of(log) =~= Set::<int>::empty());
    } else {
        lemma_log_prefix(lay, log);
        lemma_links_after(base, lay, log.drop_last());
        lemma_unlink(
            links_after(base, lay, log.drop_last()),
            lay,
            dead_of(log.drop_last()),
            log.last(),
        );
    }
}

/// Putting back the node that was taken out last gives the links that
/// there were before it was taken out.
pub proof fn lemma_relink_last(base: Links, lay: Layout, log: Seq<int>)
    requires
        in_order(base, lay, Set::empty()),
        log_ok(lay, log),
        log.len() > 0,
    ensures
        relink(links_after(base, lay, log), lay, log.last()) == links_after(
            base,
            lay,
            log.drop_last(),
        ),
        log.last() > lay.n ==> links_after(base, lay, log).size[lay.col[log.last()] as int]
            < usize::MAX,
{
    lemma_log_prefix(lay, log);
    lemma_links_after(base, lay, log.drop_last());
    lemma_unlink(
        links_after(base, lay, log.drop_last()),
        lay,
        dead_of(log.drop_last()),
        log.last(),
    );
}

/// What covering column `h` takes out below the header, as far as the ones
/// of the column before node `upto` go: for each linked one of the column,
/// top to bottom, the other nodes of its row, left to right.
pub open spec fn column_trace(lay: Layout, dead: Set<int>, h: int, upto: int) -> Seq<int>
    decreases upto,
{
    if upto <= lay.n + 1 || upto <= 0 {
        Seq::empty()
    } else if vmem(lay, dead, h)(upto - 1) {
        column_trace(lay, dead, h, upto - 1) + lay.others(upto - 1)
    } else {
        column_trace(lay, dead, h, upto - 1)
    }
}

/// The nodes that covering column `h` takes out, in order: the header, then
/// the other nodes of every row that has a linked one in the column.
pub open spec fn cover_trace(lay: Layout, dead: Set<int>, h: int) -> Seq<int> {
    seq![h] + column_trace(lay, dead, h, lay.total())
}

/// Every row that has a linked one in column `h` has all its ones linked.
pub open spec fn column_intact(lay: Layout, dead: Set<int>, h: int) -> bool {
    forall|i: int, t: int|
        vmem(lay, dead, h)(i) && 0 <= t < lay.others(i).len() ==> !dead.contains(
            #[trigger] lay.other(i, t),
        )
}

/// Where the column has no linked one between `a` and `b`, covering takes
/// nothing out for that stretch.
pub proof fn lemma_trace_skip(lay: Layout, dead: Set<int>, h: int, a: int, b: int)
    requires
        lay.n + 1 <= a <= b,
        forall|m: int| a <= m < b ==> !#[trigger] vmem(lay, dead, h)(m),
    ensures
        column_trace(lay, dead, h, b) == column_trace(lay, dead, h, a),
    decreases b - a,
{
    if a < b {
        lemma_trace_skip(lay, dead, h, a, b - 1);
        assert(!vmem(lay, dead, h)(b - 1));
    }
}

/// Each node that covering takes out below the header stands in the row of
/// a linked one of the column, and is not that one.
pub proof fn lemma_trace_member(lay: Layout, dead: Set<int>, h: int, upto: int, x: int) -> (i: int)
    requires
        lay.ok(),
        upto <= lay.total(),
        column_trace(lay, dead, h, upto).contains(x),
    ensures
        lay.n < i < upto,
        vmem(lay, dead, h)(i),
        lay.n < x < lay.total(),
        lay.in_row(i, x),
        x != i,
        lay.col[x] != h,
    decreases upto,
{
    if upto <= lay.n + 1 || upto <= 0 {
        arbitrary()
    } else {
        let prev = column_trace(lay, dead, h, upto - 1);
        let m = upto - 1;
        if vmem(lay, dead, h)(m) {
            let k = choose|k: int|
                0 <= k < (prev + lay.others(m)).len() && (prev + lay.others(m))[k] == x;
            if k < prev.len() {
                assert(prev[k] == x);
                lemma_trace_member(lay, dead, h, upto - 1, x)
            } else {
                let t = k - prev.len();
                assert(lay.others(m)[t] == x);
                assert(x == lay.other(m, t));
                assert(lay.in_row(m, m));
                assert(lay.in_row(m, x));
                m
            }
        } else {
            lemma_trace_member(lay, dead, h, upto - 1, x)
        }
    }
}

/// Covering takes out every other node of the row of each linked one of the
/// column.
pub proof fn lemma_trace_has(lay: Layout, dead: Set<int>, h: int, upto: int, i: int, t: int)
    requires
        0 <= lay.n < i < upto,
        vmem(lay, dead, h)(i),
        0 <= t < lay.others(i).len(),
    ensures
        column_trace(lay, dead, h, upto).contains(lay.other(i, t)),
    decreases upto,
{
    let prev = column_trace(lay, dead, h, upto - 1);
    let m = upto - 1;
    let x = lay.other(i, t);
    if m == i {
        let tr = prev + lay.others(m);
        assert(lay.others(m)[t] == x);
        assert(tr[prev.len() + t] == x);
        assert(column_trace(lay, dead, h, upto) == tr);
    } else {
        lemma_trace_has(lay, dead, h, upto - 1, i, t);
        let k = choose|k: int| 0 <= k < prev.len() && prev[k] == x;
        if vmem(lay, dead, h)(m) {
            assert((prev + lay.others(m))[k] == x);
            assert(column_trace(lay, dead, h, upto) == prev + lay.others(m));
        } else {
            assert(column_trace(lay, dead, h, upto) == prev);
        }
    }
}

/// What a concatenation holds is what its parts hold.
pub proof fn lemma_concat_contains(a: Seq<int>, b: Seq<int>, x: int)
    ensures
        (a + b).contains(x) <==> a.contains(x) || b.contains(x),
{
    if (a + b).contains(x) {
        let k = choose|k: int| 0 <= k < (a + b).len() && (a + b)[k] == x;
        if k < a.len() {
            assert(a[k] == x);
        } else {
            assert(b[k - a.len()] == x);
        }
    }
    if a.contains(x) {
        let k = choose|k: int| 0 <= k < a.len() && a[k] == x;
        assert((a + b)[k] == x);
    }
    if b.contains(x) {
        let k = choose|k: int| 0 <= k < b.len() && b[k] == x;
        assert((a + b)[a.len() + k] == x);
    }
}

/// The log while column `h` is being covered: what was taken out before,
/// the header, what the ones of the column before node `upto` brought, and
/// the first `t` other nodes of the row of node `i`.
pub open spec fn covering(lay: Layout, log0: Seq<int>, h: int, upto: int, i: int, t: int) -> Seq<
    int,
> {
    log0.push(h) + column_trace(lay, dead_of(log0), h, upto) + lay.others(i).take(t)
}

/// While a column is being covered none of its own ones is taken out, and
/// the node that is due next is still linked.
pub proof fn lemma_covering(
    lay: Layout,
    l: Links,
    log0: Seq<int>,
    h: int,
    upto: int,
    i: int,
    t: int,
)
    requires
        lay.ok(),
        rows_ok(l, lay),
        1 <= h <= lay.n,
        lay.n < upto <= lay.total(),
        t == 0 || (0 <= t <= lay.others(i).len() && upto == i && vmem(lay, dead_of(log0), h)(i)),
    ensures
        forall|m: int|
            lay.n < m < lay.total() ==> #[trigger] vmem(
                lay,
                dead_of(covering(lay, log0, h, upto, i, t)),
                h,
            )(m) == vmem(lay, dead_of(log0), h)(m),
        column_intact(lay, dead_of(log0), h) && upto == i && vmem(lay, dead_of(log0), h)(i) && t
            < lay.others(i).len() ==> !covering(lay, log0, h, upto, i, t).contains(lay.other(i, t)),
{
    let dead0 = dead_of(log0);
    let tr = column_trace(lay, dead0, h, upto);
    let part = lay.others(i).take(t);
    let cur = covering(lay, log0, h, upto, i, t);
    if lay.n < i < lay.total() {
        lay.lemma_others(l, i);
    }
    assert forall|x: int| cur.contains(x) implies log0.contains(x) || x == h || tr.contains(x)
        || part.contains(x) by {
        lemma_concat_contains(log0.push(h) + tr, part, x);
        lemma_concat_contains(log0.push(h), tr, x);
        lemma_concat_contains(log0, seq![h], x);
        assert(log0.push(h) =~= log0 + seq![h]);
        if seq![h].contains(x) {
            let k = choose|k: int| 0 <= k < seq![h].len() && seq![h][k] == x;
        }
    }
    assert forall|x: int| log0.contains(x) implies cur.contains(x) by {
        lemma_concat_contains(log0.push(h) + tr, part, x);
        lemma_concat_contains(log0.push(h), tr, x);
        lemma_concat_contains(log0, seq![h], x);
        assert(log0.push(h) =~= log0 + seq![h]);
    }
    assert forall|m: int| lay.n < m < lay.total() implies #[trigger] vmem(lay, dead_of(cur), h)(m)
        == vmem(lay, dead0, h)(m) by {
        if lay.col[m] == h && cur.contains(m) && !log0.contains(m) {
            if tr.contains(m) {
                let w = lemma_trace_member(lay, dead0, h, upto, m);
            } else {
                let k = choose|k: int| 0 <= k < part.len() && part[k] == m;
                assert(m == lay.other(i, k));
            }
        }
    }
    if column_intact(lay, dead0, h) && upto == i && vmem(lay, dead0, h)(i) && t
        < lay.others(i).len() {
        let x = lay.other(i, t);
        if cur.contains(x) {
            if tr.contains(x) {
                let w = lemma_trace_member(lay, dead0, h, upto, x);
                assert(lay.in_row(i, x));
                assert(lay.in_row(w, x));
                assert(1 <= lay.col[w]);
                assert(lay.in_row(i, w));
            } else if part.contains(x) {
                let k = choose|k: int| 0 <= k < part.len() && part[k] == x;
                assert(x == lay.other(i, k));
            } else {
                assert(!dead0.contains(lay.other(i, t)));
            }
        }
    }
}

/// From a linked one of column `h`, or from the header, the link down leads
/// to the next linked one of the column, or to the header after the last;
/// covering takes nothing out for the stretch between them.
pub proof fn lemma_next_in_column(
    lay: Layout,
    l: Links,
    log0: Seq<int>,
    cur: Seq<int>,
    h: int,
    x: int,
)
    requires
        lay.ok(),
        in_order(l, lay, dead_of(cur)),
        1 <= h <= lay.n,
        x == h || (lay.n < x < lay.total() && vmem(lay, dead_of(log0), h)(x)),
        forall|m: int|
            lay.n < m < lay.total() ==> #[trigger] vmem(lay, dead_of(cur), h)(m) == vmem(
                lay,
                dead_of(log0),
                h,
            )(m),
    ensures
        ({
            let y = l.down[x] as int;
            let a = if x == h { lay.n + 1 } else { x + 1 };
            let b = if y == h { lay.total() } else { y };
            &&& y == h || (x < y < lay.total() && lay.n < y && vmem(lay, dead_of(log0), h)(y))
            &&& a <= b
            &&& column_trace(lay, dead_of(log0), h, b) == column_trace(lay, dead_of(log0), h, a)
        }),
{
    let p = vmem(lay, dead_of(cur), h);
    assert(column_ok(l, lay, dead_of(cur), h));
    let a = if x == h { lay.n + 1 } else { x + 1 };
    assert(l.down[x] == crate::ring::first_from(p, a, lay.total(), h));
    crate::ring::lemma_first_from(p, a, lay.total(), h);
    let y = l.down[x] as int;
    let b = if y == h { lay.total() } else { y };
    assert forall|m: int| a <= m < b implies !#[trigger] vmem(lay, dead_of(log0), h)(m) by {
        assert(!p(m));
    }
    lemma_trace_skip(lay, dead_of(log0), h, a, b);
}

/// From a linked one of column `h`, or from the header, the link up leads
/// to the linked one before it, or to the header before the first;
/// covering takes nothing out for the stretch between them.
pub proof fn lemma_prev_in_column(
    lay: Layout,
    l: Links,
    log0: Seq<int>,
    cur: Seq<int>,
    h: int,
    x: int,
)
    requires
        lay.ok(),
        in_order(l, lay, dead_of(cur)),
        1 <= h <= lay.n,
        x == h || (lay.n < x < lay.total() && vmem(lay, dead_of(log0), h)(x)),
        forall|m: int|
            lay.n < m < lay.total() ==> #[trigger] vmem(lay, dead_of(cur), h)(m) == vmem(
                lay,
                dead_of(log0),
                h,
            )(m),
    ensures
        ({
            let y = l.up[x] as int;
            let a = if y == h { lay.n + 1 } else { y + 1 };
            let b = if x == h { lay.total() } else { x };
            &&& y == h || (lay.n < y < x && vmem(lay, dead_of(log0), h)(y)) || (x == h && lay.n < y
                < lay.total() && vmem(lay, dead_of(log0), h)(y))
            &&& a <= b
            &&& column_trace(lay, dead_of(log0), h, b) == column_trace(lay, dead_of(log0), h, a)
        }),
{
    let p = vmem(lay, dead_of(cur), h);
    assert(column_ok(l, lay, dead_of(cur), h));
    let f = if x == h { lay.total() - 1 } else { x - 1 };
    assert(l.up[x] == crate::ring::last_upto(p, f, lay.n, h));
    crate::ring::lemma_last_upto(p, f, lay.n, h);
    let y = l.up[x] as int;
    let a = if y == h { lay.n + 1 } else { y + 1 };
    let b = if x == h { lay.total() } else { x };
    assert forall|m: int| a <= m < b implies !#[trigger] vmem(lay, dead_of(log0), h)(m) by {
        assert(!p(m));
    }
    lemma_trace_skip(lay, dead_of(log0), h, a, b);
}

/// The node `t + 1` places to the right of `i` in its row, and where its
/// links within the row lead.
pub proof fn lemma_other_at(lay: Layout, l: Links, i: int, t: int)
    requires
        lay.ok(),
        rows_ok(l, lay),
        lay.n < i < lay.total(),
        -1 <= t <= lay.others(i).len(),
    ensures
        lay.n < lay.other(i, t) < lay.total(),
        lay.other(i, t) == i <==> (t == -1 || t == lay.others(i).len()),
        t < lay.others(i).len() ==> l.right[lay.other(i, t)] == lay.other(i, t + 1),
        t >= 0 ==> l.left[lay.other(i, t)] == lay.other(i, t - 1),
{
    lay.lemma_others(l, i);
    if 0 <= t < lay.others(i).len() {
        assert(lay.other(i, t) != i);
    }
}

/// The log grows by the next other node of the row.
pub proof fn lemma_covering_push(lay: Layout, log0: Seq<int>, h: int, i: int, t: int)
    requires
        0 <= t < lay.others(i).len(),
    ensures
        covering(lay, log0, h, i, i, t + 1) == covering(lay, log0, h, i, i, t).push(
            lay.other(i, t),
        ),
{
    assert(lay.others(i).take(t + 1) =~= lay.others(i).take(t).push(lay.other(i, t)));
    assert(covering(lay, log0, h, i, i, t + 1) =~= covering(lay, log0, h, i, i, t).push(
        lay.other(i, t),
    ));
}

/// The log with a whole row taken out is the log up to the next node of
/// the column.
pub proof fn lemma_covering_row(lay: Layout, log0: Seq<int>, h: int, i: int)
    requires
        0 <= lay.n < i,
        vmem(lay, dead_of(log0), h)(i),
    ensures
        covering(lay, log0, h, i, i, lay.others(i).len() as int) == covering(
            lay,
            log0,
            h,
            i + 1,
            0,
            0,
        ),
        covering(lay, log0, h, i + 1, 0, 0) == log0.push(h) + column_trace(
            lay,
            dead_of(log0),
            h,
            i + 1,
        ),
        covering(lay, log0, h, i, i, 0) == log0.push(h) + column_trace(lay, dead_of(log0), h, i),
{
    assert(lay.others(i).take(lay.others(i).len() as int) =~= lay.others(i));
    assert(column_trace(lay, dead_of(log0), h, i + 1) == column_trace(lay, dead_of(log0), h, i)
        + lay.others(i));
    assert(lay.others(0).take(0) =~= Seq::<int>::empty());
    assert(lay.others(i).take(0) =~= Seq::<int>::empty());
    assert(covering(lay, log0, h, i, i, lay.others(i).len() as int) =~= covering(
        lay,
        log0,
        h,
        i + 1,
        0,
        0,
    ));
    assert(covering(lay, log0, h, i + 1, 0, 0) =~= log0.push(h) + column_trace(
        lay,
        dead_of(log0),
        h,
        i + 1,
    ));
    assert(covering(lay, log0, h, i, i, 0) =~= log0.push(h) + column_trace(
        lay,
        dead_of(log0),
        h,
        i,
    ));
}

/// From the root or a linked header, the link to the right leads to the
/// next linked header, or to the root after the last.
pub proof fn lemma_next_header(lay: Layout, l: Links, dead: Set<int>, x: int)
    requires
        in_order(l, lay, dead),
        x == 0 || (1 <= x <= lay.n && !dead.contains(x)),
    ensures
        ({
            let y = l.right[x] as int;
            ||| (y == 0 && forall|k: int| x < k <= lay.n ==> #[trigger] dead.contains(k))
            ||| (x < y <= lay.n && !dead.contains(y) && forall|k: int|
                x < k < y ==> #[trigger] dead.contains(k))
        }),
{
    let p = hmem(dead);
    assert(l.right[x] == crate::ring::first_from(p, x + 1, lay.n + 1, 0));
    crate::ring::lemma_first_from(p, x + 1, lay.n + 1, 0);
    let y = l.right[x] as int;
    if y == 0 {
        assert forall|k: int| x < k <= lay.n implies #[trigger] dead.contains(k) by {
            assert(!p(k));
        }
    } else {
        assert forall|k: int| x < k < y implies #[trigger] dead.contains(k) by {
            assert(!p(k));
        }
    }
}

/// From the header of a column or a linked one of it, the link down leads
/// to the next linked one of the column, or to the header after the last.
pub proof fn lemma_down(lay: Layout, l: Links, dead: Set<int>, h: int, x: int)
    requires
        lay.ok(),
        in_order(l, lay, dead),
        1 <= h <= lay.n,
        x == h || vmem(lay, dead, h)(x),
    ensures
        ({
            let y = l.down[x] as int;
            let a = if x == h { lay.n + 1 } else { x + 1 };
            ||| (y == h && forall|m: int|
                a <= m < lay.total() ==> !#[trigger] vmem(lay, dead, h)(m))
            ||| (a <= y < lay.total() && vmem(lay, dead, h)(y) && forall|m: int|
                a <= m < y ==> !#[trigger] vmem(lay, dead, h)(m))
        }),
        l.size[h] == count_in(vmem(lay, dead, h), lay.n + 1, lay.total()),
{
    let p = vmem(lay, dead, h);
    assert(column_ok(l, lay, dead, h));
    let a = if x == h { lay.n + 1 } else { x + 1 };
    assert(l.down[x] == crate::ring::first_from(p, a, lay.total(), h));
    crate::ring::lemma_first_from(p, a, lay.total(), h);
}

/// Among the headers, covering a column takes out its own and no other.
pub proof fn lemma_cover_headers(lay: Layout, log: Seq<int>, h: int, k: int)
    requires
        lay.ok(),
        1 <= k <= lay.n,
    ensures
        (log + cover_trace(lay, dead_of(log), h)).contains(k) <==> log.contains(k) || k == h,
{
    let tr = column_trace(lay, dead_of(log), h, lay.total());
    lemma_concat_contains(log, cover_trace(lay, dead_of(log), h), k);
    lemma_concat_contains(seq![h], tr, k);
    if seq![h].contains(k) {
        let i = choose|i: int| 0 <= i < seq![h].len() && seq![h][i] == k;
    }
    if k == h {
        assert(seq![h][0] == k);
    }
    if tr.contains(k) {
        let w = lemma_trace_member(lay, dead_of(log), h, lay.total(), k);
    }
}

/// Taking out the nodes of two lists one after the other is taking out
/// the nodes of the first and then, from what results, those of the second.
pub proof fn lemma_links_after_concat(base: Links, lay: Layout, a: Seq<int>, b: Seq<int>)
    ensures
        links_after(base, lay, a + b) == links_after(links_after(base, lay, a), lay, b),
    decreases b.len(),
{
    if b.len() == 0 {
        assert(a + b =~= a);
    } else {
        lemma_links_after_concat(base, lay, a, b.drop_last());
        assert((a + b).drop_last() =~= a + b.drop_last());
        assert((a + b).last() == b.last());
    }
}

/// The links with every node linked are fixed by where the nodes stand.
pub proof fn lemma_links_fixed(a: Links, b: Links, lay: Layout)
    requires
        lay.ok(),
        in_order(a, lay, Set::empty()),
        in_order(b, lay, Set::empty()),
        rows_ok(a, lay),
        rows_ok(b, lay),
    ensures
        a == b,
{
    let dead = Set::<int>::empty();
    let n = lay.n;
    assert forall|x: int| 0 <= x < lay.total() implies a.left[x] == b.left[x] && a.right[x]
        == b.right[x] && a.up[x] == b.up[x] && a.down[x] == b.down[x] by {
        if x <= n {
            assert(x == 0 || hmem(dead)(x));
            if x >= 1 {
                assert(column_ok(a, lay, dead, x));
                assert(column_ok(b, lay, dead, x));
            }
        } else {
            let h = lay.col[x] as int;
            assert(1 <= lay.col[x] <= n);
            assert(column_ok(a, lay, dead, h));
            assert(column_ok(b, lay, dead, h));
            assert(vmem(lay, dead, h)(x));
        }
    }
    assert forall|h: int| 0 <= h <= n implies a.size[h] == b.size[h] by {
        if h >= 1 {
            assert(column_ok(a, lay, dead, h));
            assert(column_ok(b, lay, dead, h));
        }
    }
    assert(a.left =~= b.left);
    assert(a.right =~= b.right);
    assert(a.up =~= b.up);
    assert(a.down =~= b.down);
    assert(a.size =~= b.size);
}

} // verus!
