//! The exact-cover problem and the order in which the search visits its
//! solutions, as mathematics: no links, only rows, columns and selections.
use vstd::prelude::*;

verus! {

/// A sparse 0/1 matrix: `n` columns, and for each row the columns in which
/// it has a one.
pub struct Incidence {
    pub n: int,
    pub rows: Seq<Seq<int>>,
}

impl Incidence {
    /// A row names at least one column, each within range and none twice.
    pub open spec fn row_ok(self, row: Seq<int>) -> bool {
        &&& row.len() > 0
        &&& row.no_duplicates()
        &&& forall|j: int| 0 <= j < row.len() ==> 0 <= #[trigger] row[j] < self.n
    }

    /// Every row is a row of this matrix.
    pub open spec fn valid(self) -> bool {
        &&& self.n >= 0
        &&& forall|r: int| 0 <= r < self.rows.len() ==> self.row_ok(#[trigger] self.rows[r])
    }

    /// Row `r` has a one in column `c`.
    pub open spec fn hits(self, r: int, c: int) -> bool {
        0 <= r < self.rows.len() && self.rows[r].contains(c)
    }

    /// Some selected row has a one in column `c`.
    pub open spec fn covered(self, path: Seq<int>, c: int) -> bool {
        exists|i: int| 0 <= i < path.len() && self.hits(#[trigger] path[i], c)
    }

    /// Row `r` shares no column with the selected rows.
    pub open spec fn active(self, path: Seq<int>, r: int) -> bool {
        &&& 0 <= r < self.rows.len()
        &&& forall|c: int| #[trigger] self.hits(r, c) ==> !self.covered(path, c)
    }

    /// Row `r` can still be selected to cover column `c`.
    pub open spec fn candidate(self, path: Seq<int>, c: int, r: int) -> bool {
        self.active(path, r) && self.hits(r, c)
    }

    /// The number of candidates for column `c` among the first `k` rows.
    pub open spec fn size_upto(self, path: Seq<int>, c: int, k: int) -> int
        decreases k,
    {
        if k <= 0 {
            0
        } else {
            self.size_upto(path, c, k - 1) + if self.candidate(path, c, k - 1) {
                1int
            } else {
                0int
            }
        }
    }

    /// The number of candidates for column `c`.
    pub open spec fn size(self, path: Seq<int>, c: int) -> int {
        self.size_upto(path, c, self.rows.len() as int)
    }

    /// Among the first `k` columns, the uncovered one with the fewest
    /// candidates, the leftmost of them where several have as few; -1 where
    /// all of them are covered.
    pub open spec fn best_upto(self, path: Seq<int>, k: int) -> int
        decreases k,
    {
        if k <= 0 {
            -1
        } else {
            let b = self.best_upto(path, k - 1);
            if self.covered(path, k - 1) {
                b
            } else if b < 0 || self.size(path, k - 1) < self.size(path, b) {
                k - 1
            } else {
                b
            }
        }
    }

    /// The column on which the search branches next; -1 where every column
    /// is covered.
    pub open spec fn chosen(self, path: Seq<int>) -> int {
        self.best_upto(path, self.n)
    }

    /// The number of uncovered columns among the first `k`.
    pub open spec fn open_upto(self, path: Seq<int>, k: int) -> int
        decreases k,
    {
        if k <= 0 {
            0
        } else {
            self.open_upto(path, k - 1) + if self.covered(path, k - 1) {
                0int
            } else {
                1int
            }
        }
    }

    /// Selecting a candidate for an uncovered column leaves fewer columns
    /// uncovered.
    pub proof fn lemma_open_shrinks(self, path: Seq<int>, c: int, r: int, k: int)
        requires
            self.hits(r, c),
            0 <= c,
            !self.covered(path, c),
        ensures
            0 <= self.open_upto(path.push(r), k) <= self.open_upto(path, k),
            c < k ==> self.open_upto(path.push(r), k) < self.open_upto(path, k),
        decreases k,
    {
        if k > 0 {
            self.lemma_open_shrinks(path, c, r, k - 1);
            let q = path.push(r);
            if self.covered(path, k - 1) {
                let i = choose|i: int| 0 <= i < path.len() && self.hits(#[trigger] path[i], k - 1);
                assert(q[i] == path[i]);
            }
            if k - 1 == c {
                assert(q[path.len() as int] == r);
            }
        }
    }

    /// The solutions below the selection `path`, in the order of the search:
    /// `path` itself where every column is covered; otherwise those of each
    /// candidate for the chosen column, the candidates taken top to bottom.
    pub open spec fn search(self, path: Seq<int>) -> Seq<Seq<int>>
        decreases self.open_upto(path, self.n), self.rows.len() + 1,
    {
        if self.chosen(path) < 0 {
            seq![path]
        } else {
            self.branch(path, self.chosen(path), 0)
        }
    }

    /// The solutions below `path` that select, for column `c`, a candidate
    /// among the rows from `r` on.
    pub open spec fn branch(self, path: Seq<int>, c: int, r: int) -> Seq<Seq<int>>
        decreases self.open_upto(path, self.n), self.rows.len() - r,
    {
        if r < 0 || r >= self.rows.len() {
            Seq::empty()
        } else if self.candidate(path, c, r) && 0 <= c < self.n && !self.covered(path, c) {
            proof {
                self.lemma_open_shrinks(path, c, r, self.n);
            }
            self.search(path.push(r)) + self.branch(path, c, r + 1)
        } else {
            self.branch(path, c, r + 1)
        }
    }

    /// The solutions that the search still owes once it is done below `path`.
    pub open spec fn rest(self, path: Seq<int>) -> Seq<Seq<int>>
        decreases path.len(),
    {
        if path.len() == 0 {
            Seq::empty()
        } else {
            self.branch(path.drop_last(), self.chosen(path.drop_last()), path.last() + 1)
                + self.rest(path.drop_last())
        }
    }

    /// The steps that the search takes below `path`.
    pub open spec fn tree_work(self, path: Seq<int>) -> nat
        decreases self.open_upto(path, self.n), self.rows.len() + 1,
    {
        if self.chosen(path) < 0 {
            1
        } else {
            1 + self.branch_work(path, self.chosen(path), 0)
        }
    }

    /// The steps that the search takes for the candidates from row `r` on.
    pub open spec fn branch_work(self, path: Seq<int>, c: int, r: int) -> nat
        decreases self.open_upto(path, self.n), self.rows.len() - r,
    {
        if r < 0 || r >= self.rows.len() {
            0
        } else if self.candidate(path, c, r) && 0 <= c < self.n && !self.covered(path, c) {
            proof {
                self.lemma_open_shrinks(path, c, r, self.n);
            }
            1 + self.tree_work(path.push(r)) + self.branch_work(path, c, r + 1)
        } else {
            self.branch_work(path, c, r + 1)
        }
    }

    /// The steps that the search still takes once it is done below `path`.
    pub open spec fn rest_work(self, path: Seq<int>) -> nat
        decreases path.len(),
    {
        if path.len() == 0 {
            0
        } else {
            1 + self.branch_work(path.drop_last(), self.chosen(path.drop_last()), path.last() + 1)
                + self.rest_work(path.drop_last())
        }
    }

    /// All solutions, in the order in which the search finds them.  A matrix
    /// without columns has none.
    pub open spec fn solutions(self) -> Seq<Seq<int>> {
        if self.n <= 0 {
            Seq::empty()
        } else {
            self.search(Seq::empty())
        }
    }

    /// The selected rows are rows of the matrix and no two share a column.
    pub open spec fn disjoint(self, sel: Seq<int>) -> bool {
        &&& forall|i: int| 0 <= i < sel.len() ==> 0 <= #[trigger] sel[i] < self.rows.len()
        &&& forall|i: int, j: int, c: int|
            0 <= i < sel.len() && 0 <= j < sel.len() && self.hits(#[trigger] sel[i], c)
                && #[trigger] self.hits(sel[j], c) ==> i == j
    }

    /// Every column has a one in exactly one of the selected rows.
    pub open spec fn is_exact_cover(self, sel: Seq<int>) -> bool {
        &&& self.disjoint(sel)
        &&& forall|c: int| 0 <= c < self.n ==> self.covered(sel, c)
    }

    /// What `best_upto` returns is an uncovered column, and it returns none
    /// only where there is none.
    pub proof fn lemma_best_upto(self, path: Seq<int>, k: int)
        ensures
            self.best_upto(path, k) >= -1,
            self.best_upto(path, k) >= 0 ==> self.best_upto(path, k) < k && !self.covered(
                path,
                self.best_upto(path, k),
            ),
            self.best_upto(path, k) < 0 ==> forall|c: int| 0 <= c < k ==> self.covered(path, c),
        decreases k,
    {
        if k > 0 {
            self.lemma_best_upto(path, k - 1);
        }
    }

    /// Adding a candidate to a selection without shared columns gives one.
    pub proof fn lemma_push_disjoint(self, path: Seq<int>, r: int)
        requires
            self.disjoint(path),
            self.active(path, r),
        ensures
            self.disjoint(path.push(r)),
    {
        let q = path.push(r);
        assert forall|i: int, j: int, c: int|
            0 <= i < q.len() && 0 <= j < q.len() && self.hits(#[trigger] q[i], c)
                && #[trigger] self.hits(q[j], c) implies i == j by {
            if i < path.len() && j < path.len() {
                assert(q[i] == path[i] && q[j] == path[j]);
            } else if i < path.len() {
                assert(q[i] == path[i]);
                assert(self.covered(path, c));
                assert(self.hits(r, c));
            } else if j < path.len() {
                assert(q[j] == path[j]);
                assert(self.covered(path, c));
                assert(self.hits(r, c));
            }
        }
        assert forall|i: int| 0 <= i < q.len() implies 0 <= #[trigger] q[i] < self.rows.len() by {
            if i < path.len() {
                assert(q[i] == path[i]);
            }
        }
    }

    /// Every solution that the search finds below a selection without
    /// shared columns is an exact cover.
    pub proof fn lemma_search_sound(self, path: Seq<int>, k: int)
        requires
            self.disjoint(path),
            0 <= k < self.search(path).len(),
        ensures
            self.is_exact_cover(self.search(path)[k]),
        decreases self.open_upto(path, self.n), self.rows.len() + 1,
    {
        if self.chosen(path) < 0 {
            self.lemma_best_upto(path, self.n);
        } else {
            self.lemma_branch_sound(path, self.chosen(path), 0, k);
        }
    }

    /// Every solution that a branch yields below a selection without shared
    /// columns is an exact cover.
    pub proof fn lemma_branch_sound(self, path: Seq<int>, c: int, r: int, k: int)
        requires
            self.disjoint(path),
            0 <= k < self.branch(path, c, r).len(),
        ensures
            self.is_exact_cover(self.branch(path, c, r)[k]),
        decreases self.open_upto(path, self.n), self.rows.len() - r,
    {
        if r < 0 || r >= self.rows.len() {
        } else if self.candidate(path, c, r) && 0 <= c < self.n && !self.covered(path, c) {
            self.lemma_open_shrinks(path, c, r, self.n);
            let first = self.search(path.push(r));
            if k < first.len() {
                self.lemma_push_disjoint(path, r);
                self.lemma_search_sound(path.push(r), k);
            } else {
                self.lemma_branch_sound(path, c, r + 1, k - first.len());
            }
        } else {
            self.lemma_branch_sound(path, c, r + 1, k);
        }
    }

    /// Every solution is an exact cover: each column has a one in exactly
    /// one of its rows.
    pub proof fn lemma_solutions_are_exact_covers(self, k: int)
        requires
            0 <= k < self.solutions().len(),
        ensures
            self.is_exact_cover(self.solutions()[k]),
    {
        self.lemma_search_sound(Seq::empty(), k);
    }
}

/// A row as it is handed in, as a sequence of column numbers.
pub open spec fn as_ints(s: Seq<usize>) -> Seq<int> {
    Seq::new(s.len(), |i: int| s[i] as int)
}

impl Incidence {
    /// The node with which row `r` begins, where the root, the headers and
    /// then the ones of all rows are numbered in order.
    pub open spec fn first_node(self, r: int) -> int
        decreases r,
    {
        if r <= 0 {
            self.n + 1
        } else {
            self.first_node(r - 1) + self.rows[r - 1].len()
        }
    }

    /// The matrix with one more row.
    pub open spec fn with_row(self, row: Seq<int>) -> Incidence {
        Incidence { n: self.n, rows: self.rows.push(row) }
    }

    /// Rows that all have a one begin at ascending nodes.
    pub proof fn lemma_first_node_ascends(self, r: int, s: int)
        requires
            self.valid(),
            0 <= r <= s <= self.rows.len(),
        ensures
            self.n + 1 <= self.first_node(r) <= self.first_node(s),
            r < s ==> self.first_node(r) + self.rows[r].len() <= self.first_node(s),
        decreases s,
    {
        if s > 0 {
            assert(self.row_ok(self.rows[s - 1]));
            if r < s {
                self.lemma_first_node_ascends(r, s - 1);
            } else {
                self.lemma_first_node_ascends(r - 1, s - 1);
            }
        }
    }

    /// A further row does not move the rows before it.
    pub proof fn lemma_first_node_with_row(self, row: Seq<int>, r: int)
        requires
            r <= self.rows.len(),
        ensures
            self.with_row(row).first_node(r) == self.first_node(r),
        decreases r,
    {
        if r > 0 {
            self.lemma_first_node_with_row(row, r - 1);
            assert(self.with_row(row).rows[r - 1] == self.rows[r - 1]);
        }
    }
}

impl Incidence {
    /// Rows that are no candidates add nothing to a branch.
    pub proof fn lemma_branch_skip(self, path: Seq<int>, c: int, a: int, b: int)
        requires
            0 <= a <= b <= self.rows.len(),
            forall|r: int| a <= r < b ==> !#[trigger] self.candidate(path, c, r),
        ensures
            self.branch(path, c, a) == self.branch(path, c, b),
            self.branch_work(path, c, a) == self.branch_work(path, c, b),
        decreases b - a,
    {
        if a < b {
            assert(!self.candidate(path, c, a));
            self.lemma_branch_skip(path, c, a + 1, b);
        }
    }

    /// A branch begins with what lies below its first candidate.
    pub proof fn lemma_branch_take(self, path: Seq<int>, c: int, r: int)
        requires
            0 <= r < self.rows.len(),
            0 <= c < self.n,
            !self.covered(path, c),
            self.candidate(path, c, r),
        ensures
            self.branch(path, c, r) == self.search(path.push(r)) + self.branch(path, c, r + 1),
            self.branch_work(path, c, r) == 1 + self.tree_work(path.push(r)) + self.branch_work(
                path,
                c,
                r + 1,
            ),
    {
    }

    /// What is owed after a selection that ends with row `r`.
    pub proof fn lemma_rest_push(self, path: Seq<int>, r: int)
        ensures
            self.rest(path.push(r)) == self.branch(path, self.chosen(path), r + 1) + self.rest(
                path,
            ),
            self.rest_work(path.push(r)) == 1 + self.branch_work(path, self.chosen(path), r + 1)
                + self.rest_work(path),
    {
        assert(path.push(r).drop_last() =~= path);
    }

    /// Covered columns do not change the choice.
    pub proof fn lemma_best_skip(self, path: Seq<int>, a: int, b: int)
        requires
            0 <= a <= b,
            forall|c: int| a <= c < b ==> #[trigger] self.covered(path, c),
        ensures
            self.best_upto(path, b) == self.best_upto(path, a),
        decreases b - a,
    {
        if a < b {
            assert(self.covered(path, b - 1));
            self.lemma_best_skip(path, a, b - 1);
        }
    }

    /// A further row covers its own columns in addition.
    pub proof fn lemma_covered_push(self, path: Seq<int>, r: int, c: int)
        ensures
            self.covered(path.push(r), c) <==> self.covered(path, c) || self.hits(r, c),
    {
        let q = path.push(r);
        if self.covered(path, c) {
            let i = choose|i: int| 0 <= i < path.len() && self.hits(#[trigger] path[i], c);
            assert(q[i] == path[i]);
        }
        if self.hits(r, c) {
            assert(q[path.len() as int] == r);
        }
        if self.covered(q, c) {
            let i = choose|i: int| 0 <= i < q.len() && self.hits(#[trigger] q[i], c);
            if i < path.len() {
                assert(q[i] == path[i]);
            }
        }
    }

    /// A column without candidates has none among any rows.
    pub proof fn lemma_size_upto(self, path: Seq<int>, c: int, k: int)
        ensures
            0 <= self.size_upto(path, c, k),
            self.size_upto(path, c, k) == 0 ==> forall|r: int|
                0 <= r < k ==> !#[trigger] self.candidate(path, c, r),
        decreases k,
    {
        if k > 0 {
            self.lemma_size_upto(path, c, k - 1);
        }
    }
}

impl Incidence {
    /// Going down to the first candidate of the chosen column: what is owed
    /// is what lies below it and what is owed after it.
    pub proof fn lemma_descend(self, path: Seq<int>, r: int)
        requires
            self.chosen(path) >= 0,
            0 <= r < self.rows.len(),
            self.candidate(path, self.chosen(path), r),
            forall|k: int| 0 <= k < r ==> !#[trigger] self.candidate(path, self.chosen(path), k),
        ensures
            self.search(path) + self.rest(path) == self.search(path.push(r)) + self.rest(
                path.push(r),
            ),
            self.tree_work(path) + self.rest_work(path) == 1 + self.tree_work(path.push(r))
                + self.rest_work(path.push(r)),
    {
        let c = self.chosen(path);
        self.lemma_best_upto(path, self.n);
        self.lemma_branch_skip(path, c, 0, r);
        self.lemma_branch_take(path, c, r);
        self.lemma_rest_push(path, r);
        assert(self.search(path) + self.rest(path) =~= self.search(path.push(r)) + self.rest(
            path.push(r),
        ));
    }

    /// A chosen column without candidates: nothing lies below.
    pub proof fn lemma_dead_end(self, path: Seq<int>)
        requires
            self.chosen(path) >= 0,
            forall|k: int|
                0 <= k < self.rows.len() ==> !#[trigger] self.candidate(path, self.chosen(path), k),
        ensures
            self.search(path) + self.rest(path) == self.rest(path),
            self.tree_work(path) == 1,
    {
        let c = self.chosen(path);
        self.lemma_branch_skip(path, c, 0, self.rows.len() as int);
        assert(self.search(path) + self.rest(path) =~= self.rest(path));
    }

    /// Going on to the next candidate of the chosen column.
    pub proof fn lemma_sibling(self, q: Seq<int>, r: int, r2: int)
        requires
            self.chosen(q) >= 0,
            0 <= r < r2 < self.rows.len(),
            self.candidate(q, self.chosen(q), r2),
            forall|k: int| r < k < r2 ==> !#[trigger] self.candidate(q, self.chosen(q), k),
        ensures
            self.rest(q.push(r)) == self.search(q.push(r2)) + self.rest(q.push(r2)),
            self.rest_work(q.push(r)) == 1 + self.tree_work(q.push(r2)) + self.rest_work(
                q.push(r2),
            ),
    {
        let c = self.chosen(q);
        self.lemma_best_upto(q, self.n);
        self.lemma_rest_push(q, r);
        self.lemma_rest_push(q, r2);
        self.lemma_branch_skip(q, c, r + 1, r2);
        self.lemma_branch_take(q, c, r2);
        assert(self.rest(q.push(r)) =~= self.search(q.push(r2)) + self.rest(q.push(r2)));
    }

    /// After the last candidate of the chosen column.
    pub proof fn lemma_last_sibling(self, q: Seq<int>, r: int)
        requires
            0 <= r < self.rows.len(),
            forall|k: int|
                r < k < self.rows.len() ==> !#[trigger] self.candidate(q, self.chosen(q), k),
        ensures
            self.rest(q.push(r)) == self.rest(q),
            self.rest_work(q.push(r)) == 1 + self.rest_work(q),
    {
        let c = self.chosen(q);
        self.lemma_rest_push(q, r);
        self.lemma_branch_skip(q, c, r + 1, self.rows.len() as int);
        assert(self.rest(q.push(r)) =~= self.rest(q));
    }

    /// At a selection that covers every column, the selection itself is
    /// what is owed next.
    pub proof fn lemma_leaf(self, path: Seq<int>, sols: Seq<Seq<int>>, e: int)
        requires
            self.chosen(path) < 0,
            0 <= e <= sols.len(),
            sols.skip(e) == self.search(path) + self.rest(path),
        ensures
            e < sols.len(),
            sols[e] == path,
            sols.skip(e + 1) == self.rest(path),
    {
        let tail = sols.skip(e);
        assert(tail[0] == path);
        assert(sols.skip(e + 1) =~= tail.skip(1));
        assert(tail.skip(1) =~= self.rest(path));
    }
}

impl Incidence {
    /// Two selections select the same rows.
    pub open spec fn same_rows(a: Seq<int>, b: Seq<int>) -> bool {
        forall|r: int| a.contains(r) <==> b.contains(r)
    }

    /// What lies below a candidate is part of the branch.
    pub proof fn lemma_branch_holds(self, path: Seq<int>, c: int, lo: int, r: int, k: int) -> (j:
        int)
        requires
            0 <= lo <= r < self.rows.len(),
            0 <= c < self.n,
            !self.covered(path, c),
            self.candidate(path, c, r),
            0 <= k < self.search(path.push(r)).len(),
        ensures
            0 <= j < self.branch(path, c, lo).len(),
            self.branch(path, c, lo)[j] == self.search(path.push(r))[k],
        decreases r - lo,
    {
        if lo == r {
            self.lemma_branch_take(path, c, r);
            k
        } else {
            let j = self.lemma_branch_holds(path, c, lo + 1, r, k);
            if self.candidate(path, c, lo) {
                self.lemma_branch_take(path, c, lo);
                self.search(path.push(lo)).len() + j
            } else {
                j
            }
        }
    }

    /// Every exact cover that holds the rows of `path` is found below
    /// `path`.
    pub proof fn lemma_search_complete(self, path: Seq<int>, cover: Seq<int>) -> (k: int)
        requires
            self.valid(),
            self.is_exact_cover(cover),
            forall|i: int| 0 <= i < path.len() ==> cover.contains(#[trigger] path[i]),
        ensures
            0 <= k < self.search(path).len(),
            Self::same_rows(self.search(path)[k], cover),
        decreases self.open_upto(path, self.n), self.rows.len() + 1,
    {
        let c = self.chosen(path);
        self.lemma_best_upto(path, self.n);
        if c < 0 {
            assert forall|r: int| path.contains(r) <==> cover.contains(r) by {
                if cover.contains(r) {
                    let i = choose|i: int| 0 <= i < cover.len() && cover[i] == r;
                    assert(self.row_ok(self.rows[cover[i]]));
                    let col = self.rows[r][0];
                    assert(self.hits(r, col));
                    assert(self.covered(path, col));
                    let p = choose|p: int|
                        0 <= p < path.len() && self.hits(#[trigger] path[p], col);
                    let j = choose|j: int| 0 <= j < cover.len() && cover[j] == path[p];
                    assert(self.hits(cover[i], col) && self.hits(cover[j], col));
                }
            }
            0
        } else {
            assert(self.covered(cover, c));
            let i = choose|i: int| 0 <= i < cover.len() && self.hits(#[trigger] cover[i], c);
            let r = cover[i];
            assert forall|col: int| #[trigger] self.hits(r, col) implies !self.covered(
                path,
                col,
            ) by {
                if self.covered(path, col) {
                    let p = choose|p: int|
                        0 <= p < path.len() && self.hits(#[trigger] path[p], col);
                    let j = choose|j: int| 0 <= j < cover.len() && cover[j] == path[p];
                    assert(self.hits(cover[i], col) && self.hits(cover[j], col));
                    assert(self.hits(path[p], c));
                }
            }
            self.lemma_open_shrinks(path, c, r, self.n);
            let q = path.push(r);
            assert forall|p: int| 0 <= p < q.len() implies cover.contains(#[trigger] q[p]) by {
                if p < path.len() {
                    assert(q[p] == path[p]);
                }
            }
            let k = self.lemma_search_complete(q, cover);
            self.lemma_branch_holds(path, c, 0, r, k)
        }
    }

    /// Every exact cover is found: some solution selects its rows.
    pub proof fn lemma_every_exact_cover_is_found(self, cover: Seq<int>) -> (k: int)
        requires
            self.valid(),
            self.n > 0,
            self.is_exact_cover(cover),
        ensures
            0 <= k < self.solutions().len(),
            Self::same_rows(self.solutions()[k], cover),
    {
        self.lemma_search_complete(Seq::empty(), cover)
    }
}

impl Incidence {
    /// Every solution of a branch begins with the selection, goes on with a
    /// row from `r` on that has a one in column `c`, and is longer for it.
    pub proof fn lemma_branch_extends(self, path: Seq<int>, c: int, r: int, k: int)
        requires
            0 <= r,
            0 <= k < self.branch(path, c, r).len(),
        ensures
            self.branch(path, c, r)[k].len() > path.len(),
            self.branch(path, c, r)[k].take(path.len() as int) == path,
            r <= self.branch(path, c, r)[k][path.len() as int],
            self.hits(self.branch(path, c, r)[k][path.len() as int], c),
        decreases self.open_upto(path, self.n), self.rows.len() - r,
    {
        if r >= self.rows.len() {
        } else if self.candidate(path, c, r) && 0 <= c < self.n && !self.covered(path, c) {
            self.lemma_open_shrinks(path, c, r, self.n);
            let first = self.search(path.push(r));
            if k < first.len() {
                self.lemma_search_extends(path.push(r), k);
                let s = first[k];
                assert(s.take(path.len() as int) =~= s.take(path.len() as int + 1).take(
                    path.len() as int,
                ));
                assert(s.take(path.len() as int + 1)[path.len() as int] == r);
            } else {
                self.lemma_branch_extends(path, c, r + 1, k - first.len());
            }
        } else {
            self.lemma_branch_extends(path, c, r + 1, k);
        }
    }

    /// Every solution found below a selection begins with the selection.
    pub proof fn lemma_search_extends(self, path: Seq<int>, k: int)
        requires
            0 <= k < self.search(path).len(),
        ensures
            self.search(path)[k].len() >= path.len(),
            self.search(path)[k].take(path.len() as int) == path,
        decreases self.open_upto(path, self.n), self.rows.len() + 1,
    {
        if self.chosen(path) < 0 {
            assert(path.take(path.len() as int) =~= path);
        } else {
            self.lemma_branch_extends(path, self.chosen(path), 0, k);
        }
    }

    /// No two solutions of a branch select the same rows.
    pub proof fn lemma_branch_distinct(self, path: Seq<int>, c: int, r: int, j: int, k: int)
        requires
            self.disjoint(path),
            0 <= r,
            0 <= j < k < self.branch(path, c, r).len(),
        ensures
            !Self::same_rows(self.branch(path, c, r)[j], self.branch(path, c, r)[k]),
        decreases self.open_upto(path, self.n), self.rows.len() - r,
    {
        if r >= self.rows.len() {
        } else if self.candidate(path, c, r) && 0 <= c < self.n && !self.covered(path, c) {
            self.lemma_open_shrinks(path, c, r, self.n);
            let first = self.search(path.push(r));
            if k < first.len() {
                self.lemma_push_disjoint(path, r);
                self.lemma_search_distinct(path.push(r), j, k);
            } else if j >= first.len() {
                self.lemma_branch_distinct(path, c, r + 1, j - first.len(), k - first.len());
            } else {
                let a = first[j];
                let b = self.branch(path, c, r + 1)[k - first.len()];
                self.lemma_search_extends(path.push(r), j);
                self.lemma_branch_extends(path, c, r + 1, k - first.len());
                self.lemma_branch_sound(path, c, r + 1, k - first.len());
                assert(a.take(path.len() as int + 1)[path.len() as int] == r);
                assert(a[path.len() as int] == r);
                assert(a.contains(r));
                if Self::same_rows(a, b) {
                    assert(b.contains(r));
                    let i = choose|i: int| 0 <= i < b.len() && b[i] == r;
                    assert(self.hits(b[i], c) && self.hits(b[path.len() as int], c));
                }
            }
        } else {
            self.lemma_branch_distinct(path, c, r + 1, j, k);
        }
    }

    /// No two solutions found below a selection select the same rows.
    pub proof fn lemma_search_distinct(self, path: Seq<int>, j: int, k: int)
        requires
            self.disjoint(path),
            0 <= j < k < self.search(path).len(),
        ensures
            !Self::same_rows(self.search(path)[j], self.search(path)[k]),
        decreases self.open_upto(path, self.n), self.rows.len() + 1,
    {
        if self.chosen(path) >= 0 {
            self.lemma_branch_distinct(path, self.chosen(path), 0, j, k);
        }
    }

    /// No cover is found twice: no two solutions select the same rows.
    pub proof fn lemma_no_cover_is_found_twice(self, j: int, k: int)
        requires
            0 <= j < k < self.solutions().len(),
        ensures
            !Self::same_rows(self.solutions()[j], self.solutions()[k]),
    {
        self.lemma_search_distinct(Seq::empty(), j, k);
    }
}

} // verus!
