//! The sparse matrix with its dancing links, and the search for exact covers.
use vstd::prelude::*;
use crate::bridge::{
    arena_ok, column_lists, covers_match, frame_end, frame_ok, lemma_lists, lemma_row_cover_step,
    lemma_select, lemma_selected, lemma_sem_cover, lemma_size_matches, lemma_trail_pop,
    lemma_trail_push, levels_ok, row_covered, trail_ok,
};
use crate::exact::{as_ints, Incidence};
use crate::links::{
    appended_layout, appended_links, column_intact, column_trace, cover_trace, covering, dead_of,
    in_order, initial_layout, initial_links, lemma_append, lemma_covering, lemma_covering_push,
    lemma_covering_row, lemma_down, lemma_initial, lemma_links_after, lemma_links_after_concat,
    lemma_log_prefix, lemma_next_header, lemma_next_in_column, lemma_other_at,
    lemma_prev_in_column, lemma_relink_last, lemma_unlink, links_after, log_ok, relink, rows_ok,
    unlink, vmem, Layout, Links,
};
use crate::ring::lemma_ring_frame;

verus! {

/// Where a matrix stands in its search.
#[derive(Debug, PartialEq, Eq, Structural, Clone, Copy)]
pub enum Phase {
    /// No solution has been asked for yet; rows can still be added.
    Fresh,
    /// The search has begun and may hold further solutions.
    Running,
    /// The search has been through every selection.
    Exhausted,
}

/// What a step of the search did.
#[derive(Debug, PartialEq, Eq, Structural, Clone, Copy)]
enum Move {
    /// Nothing: the search stands at a solution, or at its end.
    Stay,
    /// It selected a row and goes on down.
    Down,
    /// It goes on back.
    Back,
}

/// A sparse 0/1 matrix whose ones are nodes in four-way linked rings, and
/// the state of the search for the selections of rows that have exactly
/// one 1 in every column.
///
/// All nodes stand in one arena: node 0 is the root, nodes `1..=n` are the
/// column headers, and the ones of the rows follow row by row.  A link is
/// the index of a node.  Every one of a row carries the position of its
/// row among the rows; that position identifies the row.
pub struct Matrix {
    n_cols: usize,
    left: Vec<usize>,
    right: Vec<usize>,
    up: Vec<usize>,
    down: Vec<usize>,
    col: Vec<usize>,
    row: Vec<usize>,
    size: Vec<usize>,
    place: Vec<usize>,
    starts: Vec<usize>,
    selected: Vec<usize>,
    phase: Phase,
    last: Ghost<Seq<int>>,
    owner: Ghost<Seq<int>>,
    rows: Ghost<Seq<Seq<int>>>,
    base: Ghost<Links>,
    log: Ghost<Seq<int>>,
    marks: Ghost<Seq<int>>,
    path: Ghost<Seq<int>>,
    emitted: Ghost<nat>,
}

impl Matrix {
    /// Where the nodes stand.
    pub closed spec fn layout(&self) -> Layout {
        Layout { n: self.n_cols as int, col: self.col@, row: self.row@, last: self.last@ }
    }

    /// The links as they are now.
    pub closed spec fn links(&self) -> Links {
        Links {
            left: self.left@,
            right: self.right@,
            up: self.up@,
            down: self.down@,
            size: self.size@,
        }
    }

    /// The matrix as mathematics: the number of columns and the rows.
    pub closed spec fn problem(&self) -> Incidence {
        Incidence { n: self.n_cols as int, rows: self.rows@ }
    }

    /// Where the search stands.
    pub closed spec fn phase(&self) -> Phase {
        self.phase
    }

    /// The nodes that are currently taken out of their rings, in the order
    /// in which they were.
    pub closed spec fn log(&self) -> Seq<int> {
        self.log@
    }

    /// For each column that is currently covered, in the order of the
    /// covering, the length that the log had before.
    pub closed spec fn marks(&self) -> Seq<int> {
        self.marks@
    }

    /// The links with every node linked: those of the matrix as it is built,
    /// before any column is covered.
    pub closed spec fn built(&self) -> Links {
        self.base@
    }

    /// Every one carries the position of its row, and the first node of
    /// every row is on record.
    spec fn numbered(&self) -> bool {
        let lay = self.layout();
        let pb = self.problem();
        &&& self.place@.len() == lay.total()
        &&& forall|x: int| lay.n < x < lay.total() ==> #[trigger] self.place@[x] == self.owner@[x]
        &&& self.starts@.len() == pb.rows.len()
        &&& forall|r: int| 0 <= r < pb.rows.len() ==> #[trigger] self.starts@[r] == pb.first_node(r)
    }

    /// The nodes of the arena mirror the rows.
    spec fn mapped(&self) -> bool {
        arena_ok(self.layout(), self.owner@, self.problem()) && self.numbered()
    }

    /// The links are those that result from linking every node in order
    /// and then taking out the nodes of the log.
    spec fn linked(&self) -> bool {
        let lay = self.layout();
        &&& in_order(self.base@, lay, Set::empty())
        &&& rows_ok(self.base@, lay)
        &&& lay.complete()
        &&& log_ok(lay, self.log@)
        &&& self.links() == links_after(self.base@, lay, self.log@)
    }

    /// Nothing has been searched yet.
    pub closed spec fn is_fresh(&self) -> bool {
        &&& self.phase == Phase::Fresh
        &&& self.log@.len() == 0
        &&& self.marks@.len() == 0
        &&& self.path@.len() == 0
        &&& self.selected@.len() == 0
        &&& self.emitted@ == 0
    }

    /// The arena mirrors the rows, and the links are those of the log.
    spec fn sound(&self) -> bool {
        &&& self.mapped()
        &&& self.linked()
    }

    /// The matrix is consistent: the arena mirrors the rows, the links are
    /// those of the log, and the log is the record of the coverings that
    /// are in force.
    pub closed spec fn wf(&self) -> bool {
        &&& self.sound()
        &&& trail_ok(self.layout(), self.log@, self.marks@)
    }

    /// Everything but the links and the record of what is taken out is as
    /// in `o`.
    pub closed spec fn agrees(&self, o: &Matrix) -> bool {
        &&& self.n_cols == o.n_cols
        &&& self.col@ == o.col@
        &&& self.row@ == o.row@
        &&& self.last@ == o.last@
        &&& self.owner@ == o.owner@
        &&& self.place@ == o.place@
        &&& self.starts@ == o.starts@
        &&& self.rows@ == o.rows@
        &&& self.base@ == o.base@
        &&& self.phase == o.phase
        &&& self.path@ == o.path@
        &&& self.selected@ == o.selected@
        &&& self.emitted@ == o.emitted@
    }

    /// In a consistent matrix the links within the rows are in place.
    proof fn lemma_rows(&self)
        requires
            self.sound(),
        ensures
            self.layout().ok(),
            rows_ok(self.links(), self.layout()),
            self.left@.len() == self.layout().total(),
            self.right@.len() == self.layout().total(),
            self.up@.len() == self.layout().total(),
            self.down@.len() == self.layout().total(),
            self.col@.len() == self.layout().total(),
            self.layout().n == self.n_cols,
            self.links().left == self.left@,
            self.links().right == self.right@,
    {
        lemma_links_after(self.base@, self.layout(), self.log@);
    }

    /// Takes node `x` out of its ring: a header out of the ring of the
    /// headers, a one out of its column.
    fn unlink_node(&mut self, x: usize)
        requires
            old(self).sound(),
            1 <= x < old(self).layout().total(),
            !old(self).log().contains(x as int),
        ensures
            final(self).sound(),
            final(self).agrees(old(self)),
            final(self).log() == old(self).log().push(x as int),
            final(self).marks() == old(self).marks(),
    {
        let ghost lay = self.layout();
        let ghost l = self.links();
        proof {
            lemma_links_after(self.base@, lay, self.log@);
            lemma_unlink(l, lay, dead_of(self.log@), x as int);
            assert(l.left[x as int] == self.left[x as int]);
            assert(l.right[x as int] == self.right[x as int]);
            assert(l.up[x as int] == self.up[x as int]);
            assert(l.down[x as int] == self.down[x as int]);
            assert(lay.col[x as int] == self.col[x as int]);
        }
        if x <= self.n_cols {
            let a = self.left[x];
            let b = self.right[x];
            self.right[a] = b;
            self.left[b] = a;
        } else {
            let u = self.up[x];
            let d = self.down[x];
            let h = self.col[x];
            self.down[u] = d;
            self.up[d] = u;
            let s = self.size[h];
            assert(s == l.size[h as int]);
            self.size[h] = s - 1;
        }
        proof {
            let l2 = unlink(l, lay, x as int);
            assert(self.links().left =~= l2.left);
            assert(self.links().right =~= l2.right);
            assert(self.links().up =~= l2.up);
            assert(self.links().down =~= l2.down);
            assert(self.links().size =~= l2.size);
            assert(self.links() == l2);
            let ghost log0 = self.log@;
            self.log@ = self.log@.push(x as int);
            assert(self.log@.drop_last() =~= log0);
            assert(self.log@.last() == x);
            assert(log_ok(lay, self.log@)) by {
                assert forall|a: int, b: int|
                    0 <= a < self.log@.len() && 0 <= b < self.log@.len() && a
                        != b implies self.log@[a] != self.log@[b] by {
                    if a < log0.len() && b < log0.len() {
                        assert(log0[a] != log0[b]);
                    } else if a < log0.len() {
                        assert(log0[a] == self.log@[a]);
                    } else if b < log0.len() {
                        assert(log0[b] == self.log@[b]);
                    }
                }
            }
        }
    }

    /// Puts back node `x`, the node that was taken out last.
    fn relink_node(&mut self, x: usize)
        requires
            old(self).sound(),
            old(self).log().len() > 0,
            old(self).log().last() == x,
        ensures
            final(self).sound(),
            final(self).agrees(old(self)),
            final(self).log() == old(self).log().drop_last(),
            final(self).marks() == old(self).marks(),
    {
        let ghost lay = self.layout();
        let ghost l = self.links();
        proof {
            lemma_links_after(self.base@, lay, self.log@);
            lemma_relink_last(self.base@, lay, self.log@);
            lemma_log_prefix(lay, self.log@);
            assert(1 <= self.log@[self.log@.len() - 1] < lay.total());
            assert(l.left[x as int] == self.left[x as int]);
            assert(l.right[x as int] == self.right[x as int]);
            assert(l.up[x as int] == self.up[x as int]);
            assert(l.down[x as int] == self.down[x as int]);
            assert(lay.col[x as int] == self.col[x as int]);
        }
        if x <= self.n_cols {
            let a = self.left[x];
            let b = self.right[x];
            self.right[a] = x;
            self.left[b] = x;
        } else {
            let u = self.up[x];
            let d = self.down[x];
            let h = self.col[x];
            self.down[u] = x;
            self.up[d] = x;
            let s = self.size[h];
            assert(s == l.size[h as int]);
            self.size[h] = s + 1;
        }
        proof {
            let l2 = relink(l, lay, x as int);
            assert(self.links().left =~= l2.left);
            assert(self.links().right =~= l2.right);
            assert(self.links().up =~= l2.up);
            assert(self.links().down =~= l2.down);
            assert(self.links().size =~= l2.size);
            assert(self.links() == l2);
            self.log@ = self.log@.drop_last();
        }
    }

    /// The state `self` is what covering column `c` makes of `before`: the
    /// header and the other nodes of every row with a linked one in the
    /// column are taken out, in this order, and nothing else has changed.
    pub open spec fn covered_from(&self, before: &Matrix, c: int) -> bool {
        &&& self.wf()
        &&& self.agrees(before)
        &&& self.problem() == before.problem()
        &&& self.layout() == before.layout()
        &&& self.built() == before.built()
        &&& self.log() == before.log() + cover_trace(
            before.layout(),
            dead_of(before.log()),
            c + 1,
        )
        &&& self.marks() == before.marks().push(before.log().len() as int)
        &&& forall|k: int|
            0 <= k < before.problem().n ==> (#[trigger] self.covered(k) <==> before.covered(k) || k
                == c)
        &&& self.links() == links_after(
            before.links(),
            before.layout(),
            cover_trace(before.layout(), dead_of(before.log()), c + 1),
        )
    }

    /// Column `c` is covered: its header is taken out.
    pub open spec fn covered(&self, c: int) -> bool {
        self.log().contains(c + 1)
    }

    /// Column `c` is the one that was covered last.
    pub open spec fn covered_last(&self, c: int) -> bool {
        &&& self.marks().len() > 0
        &&& 0 <= self.marks().last() < self.log().len()
        &&& self.log()[self.marks().last()] == c + 1
    }

    /// The state `self` is what uncovering makes of `before`: what the last
    /// covering took out is put back, and nothing else has changed.
    pub open spec fn uncovered_from(&self, before: &Matrix) -> bool {
        &&& self.wf()
        &&& self.agrees(before)
        &&& self.problem() == before.problem()
        &&& self.layout() == before.layout()
        &&& self.built() == before.built()
        &&& self.log() == before.log().take(before.marks().last())
        &&& self.marks() == before.marks().drop_last()
        &&& forall|k: int|
            0 <= k < before.problem().n ==> (#[trigger] self.covered(k) <==> before.covered(k) && k
                + 1 != before.log()[before.marks().last()])
        &&& before.links() == links_after(
            self.links(),
            self.layout(),
            cover_trace(self.layout(), dead_of(self.log()), before.log()[before.marks().last()]),
        )
    }

    /// Covers column `c`: takes its header out of the ring of the headers,
    /// and, for each linked one of the column from top to bottom, takes the
    /// other nodes of that row, from left to right, out of their columns.
    pub fn cover(&mut self, c: usize)
        requires
            old(self).wf(),
            c < old(self).problem().n,
            !old(self).covered(c as int),
        ensures
            final(self).covered_from(old(self), c as int),
    {
        let h = c + 1;
        let ghost lay = self.layout();
        let ghost log0 = self.log@;
        let ghost dead0 = dead_of(log0);
        let ghost n = self.n_cols as int;
        let ghost marks0 = self.marks@;
        let ghost marks1 = self.marks@.push(log0.len() as int);
        proof {
            lemma_links_after(self.base@, lay, self.log@);
            lemma_sem_cover(lay, self.links(), log0, h as int);
            lemma_trail_push(lay, self.links(), log0, marks0, h as int);
        }
        self.unlink_node(h);
        proof {
            self.marks@ = marks1;
            lemma_links_after(self.base@, lay, self.log@);
            let l = self.links();
            assert(covering(lay, log0, h as int, n + 1, 0, 0) =~= self.log@);
            lemma_covering(lay, l, log0, h as int, n + 1, 0, 0);
            lemma_next_in_column(lay, l, log0, self.log@, h as int, h as int);
            assert(l.down[h as int] == self.down[h as int]);
        }
        let mut i = self.down[h];
        assert(self.log@ =~= log0.push(h as int) + column_trace(
            lay,
            dead0,
            h as int,
            if i == h { lay.total() } else { i as int },
        ));
        while i != h
            invariant
                self.sound(),
                self.agrees(old(self)),
                self.marks@ == marks1,
                lay == self.layout(),
                n == lay.n,
                1 <= h <= n,
                log0 == old(self).log@,
                dead0 == dead_of(log0),
                column_intact(lay, dead0, h as int),
                i == h || (n < i < lay.total() && vmem(lay, dead0, h as int)(i as int)),
                self.log@ == log0.push(h as int) + column_trace(
                    lay,
                    dead0,
                    h as int,
                    if i == h { lay.total() } else { i as int },
                ),
            decreases (if i == h { 0 } else { lay.total() - i }),
        {
            let ghost len = lay.others(i as int).len() as int;
            let ghost mut t: int = 0;
            proof {
                self.lemma_rows();
                lemma_other_at(lay, self.links(), i as int, -1);
                lemma_covering_row(lay, log0, h as int, i as int);
            }
            let mut j = self.right[i];
            while j != i
                invariant
                    self.sound(),
                    self.agrees(old(self)),
                    self.marks@ == marks1,
                    lay == self.layout(),
                    n == lay.n,
                    1 <= h <= n,
                    dead0 == dead_of(log0),
                    column_intact(lay, dead0, h as int),
                    n < i < lay.total(),
                    vmem(lay, dead0, h as int)(i as int),
                    len == lay.others(i as int).len(),
                    0 <= t <= len,
                    j == lay.other(i as int, t),
                    self.log@ == covering(lay, log0, h as int, i as int, i as int, t),
                decreases len - t,
            {
                proof {
                    self.lemma_rows();
                    lemma_other_at(lay, self.links(), i as int, t);
                    lemma_covering(lay, self.links(), log0, h as int, i as int, i as int, t);
                    assert(t < len);
                }
                self.unlink_node(j);
                proof {
                    self.lemma_rows();
                    lemma_other_at(lay, self.links(), i as int, t);
                    lemma_covering_push(lay, log0, h as int, i as int, t);
                }
                j = self.right[j];
                proof {
                    t = t + 1;
                }
            }
            proof {
                lemma_links_after(self.base@, lay, self.log@);
                let l = self.links();
                lemma_other_at(lay, l, i as int, t);
                assert(t == len);
                lemma_covering_row(lay, log0, h as int, i as int);
                lemma_covering(lay, l, log0, h as int, i + 1, 0, 0);
                lemma_next_in_column(lay, l, log0, self.log@, h as int, i as int);
                assert(l.down[i as int] == self.down[i as int]);
            }
            i = self.down[i];
            assert(self.log@ =~= log0.push(h as int) + column_trace(
                lay,
                dead0,
                h as int,
                if i == h { lay.total() } else { i as int },
            ));
        }
        proof {
            assert(self.log@ =~= log0 + cover_trace(lay, dead0, h as int));
            lemma_links_after_concat(self.base@, lay, log0, cover_trace(lay, dead0, h as int));
            assert forall|k: int| 0 <= k < lay.n implies (#[trigger] self.covered(k)
                <==> log0.contains(k + 1) || k == c) by {
                crate::links::lemma_cover_headers(lay, log0, h as int, k + 1);
            }
        }
    }

    /// Uncovers column `c`, the column that was covered last: puts back, in
    /// the reverse order, every node that covering it took out.
    pub fn uncover(&mut self, c: usize)
        requires
            old(self).wf(),
            c < old(self).problem().n,
            old(self).covered_last(c as int),
        ensures
            final(self).uncovered_from(old(self)),
    {
        let h = c + 1;
        let ghost lay = self.layout();
        let ghost n = self.n_cols as int;
        let ghost p = self.marks@.last();
        let ghost log0 = self.log@.take(p);
        let ghost dead0 = dead_of(log0);
        let ghost marks1 = self.marks@.drop_last();
        proof {
            lemma_trail_pop(lay, self.log@, self.marks@);
            lemma_links_after(self.base@, lay, self.log@);
            let l = self.links();
            assert(self.log@ =~= covering(lay, log0, h as int, lay.total(), 0, 0));
            lemma_covering(lay, l, log0, h as int, lay.total(), 0, 0);
            lemma_prev_in_column(lay, l, log0, self.log@, h as int, h as int);
            assert(l.up[h as int] == self.up[h as int]);
            self.marks@ = marks1;
        }
        let mut i = self.up[h];
        assert(self.log@ =~= log0.push(h as int) + column_trace(
            lay,
            dead0,
            h as int,
            if i == h { n + 1 } else { i + 1 },
        ));
        while i != h
            invariant
                self.sound(),
                self.agrees(old(self)),
                self.marks@ == marks1,
                lay == self.layout(),
                n == lay.n,
                1 <= h <= n,
                dead0 == dead_of(log0),
                i == h || (n < i < lay.total() && vmem(lay, dead0, h as int)(i as int)),
                self.log@ == log0.push(h as int) + column_trace(
                    lay,
                    dead0,
                    h as int,
                    if i == h { n + 1 } else { i + 1 },
                ),
            decreases (if i == h { 0 } else { i as int }),
        {
            let ghost len = lay.others(i as int).len() as int;
            let ghost mut t: int = len;
            proof {
                self.lemma_rows();
                lemma_other_at(lay, self.links(), i as int, len);
                lemma_covering_row(lay, log0, h as int, i as int);
                assert(self.log@ == covering(lay, log0, h as int, i as int, i as int, len));
            }
            let mut j = self.left[i];
            while j != i
                invariant
                    self.sound(),
                    self.agrees(old(self)),
                    self.marks@ == marks1,
                    lay == self.layout(),
                    n == lay.n,
                    1 <= h <= n,
                    dead0 == dead_of(log0),
                    n < i < lay.total(),
                    vmem(lay, dead0, h as int)(i as int),
                    len == lay.others(i as int).len(),
                    0 <= t <= len,
                    j == lay.other(i as int, t - 1),
                    self.log@ == covering(lay, log0, h as int, i as int, i as int, t),
                decreases t,
            {
                proof {
                    self.lemma_rows();
                    lemma_other_at(lay, self.links(), i as int, t - 1);
                    assert(t > 0);
                    lemma_covering_push(lay, log0, h as int, i as int, t - 1);
                    let shorter = covering(lay, log0, h as int, i as int, i as int, t - 1);
                    assert(shorter.push(j as int).last() == j);
                    assert(shorter.push(j as int).drop_last() =~= shorter);
                }
                self.relink_node(j);
                proof {
                    self.lemma_rows();
                    lemma_other_at(lay, self.links(), i as int, t - 1);
                }
                j = self.left[j];
                proof {
                    t = t - 1;
                }
            }
            proof {
                lemma_links_after(self.base@, lay, self.log@);
                let l = self.links();
                lemma_other_at(lay, l, i as int, t - 1);
                assert(t == 0);
                lemma_covering_row(lay, log0, h as int, i as int);
                assert(self.log@ =~= covering(lay, log0, h as int, i as int, 0, 0));
                lemma_covering(lay, l, log0, h as int, i as int, 0, 0);
                lemma_prev_in_column(lay, l, log0, self.log@, h as int, i as int);
                assert(l.up[i as int] == self.up[i as int]);
            }
            i = self.up[i];
            assert(self.log@ =~= log0.push(h as int) + column_trace(
                lay,
                dead0,
                h as int,
                if i == h { n + 1 } else { i + 1 },
            ));
        }
        proof {
            assert(self.log@ =~= log0.push(h as int));
            assert(self.log@.drop_last() =~= log0);
            lemma_links_after_concat(self.base@, lay, log0, cover_trace(lay, dead0, h as int));
            assert(frame_ok(lay, old(self).log@, old(self).marks@, old(self).marks@.len() - 1));
            assert(!log0.contains(h as int));
            assert forall|k: int| 0 <= k < lay.n implies (#[trigger] old(self).covered(k)
                <==> log0.contains(k + 1) || k + 1 == h) by {
                crate::links::lemma_cover_headers(lay, log0, h as int, k + 1);
            }
        }
        self.relink_node(h);
        proof {
            assert forall|k: int| 0 <= k < lay.n implies (#[trigger] self.covered(k) <==> old(
                self,
            ).covered(k) && k + 1 != h) by {
                assert(old(self).covered(k) <==> log0.contains(k + 1) || k + 1 == h);
            }
        }
    }

    /// The column on which to branch: the header of the linked column with
    /// the fewest linked ones, the leftmost of them where several have as
    /// few; 0 where no column is linked.
    fn choose_column(&self) -> (h: usize)
        requires
            self.wf(),
            covers_match(self.layout(), self.problem(), dead_of(self.log@), self.path@),
        ensures
            h == self.problem().chosen(self.path@) + 1,
            h > 0 ==> h <= self.n_cols && !self.log@.contains(h as int) && self.size@[h as int]
                == self.problem().size(self.path@, h - 1),
    {
        let ghost lay = self.layout();
        let ghost pb = self.problem();
        let ghost dead = dead_of(self.log@);
        let ghost path = self.path@;
        let ghost l = self.links();
        let ghost owner = self.owner@;
        proof {
            lemma_links_after(self.base@, lay, self.log@);
            lemma_next_header(lay, l, dead, 0);
        }
        let mut c = self.right[0];
        let mut best: usize = 0;
        proof {
            let bound = if c == 0 { lay.n } else { c - 1 };
            assert forall|k: int| 0 <= k < bound implies #[trigger] pb.covered(path, k) by {
                assert(dead.contains(k + 1));
            }
            pb.lemma_best_skip(path, 0, bound);
        }
        while c != 0
            invariant
                self.wf(),
                covers_match(lay, pb, dead, path),
                lay == self.layout(),
                pb == self.problem(),
                dead == dead_of(self.log@),
                path == self.path@,
                l == self.links(),
                owner == self.owner@,
                in_order(l, lay, dead),
                lay.ok(),
                lay.n == self.n_cols,
                c == 0 || (1 <= c <= lay.n && !dead.contains(c as int)),
                best <= lay.n,
                best == pb.best_upto(path, if c == 0 { lay.n } else { c - 1 }) + 1,
                best > 0 ==> !dead.contains(best as int) && l.size[best as int] == pb.size(
                    path,
                    best - 1,
                ),
            decreases (if c == 0 { 0 } else { lay.n + 1 - c }),
        {
            proof {
                lemma_lists(lay, owner, pb, dead, path, c as int);
                lemma_size_matches(lay, owner, pb, dead, path, c as int, pb.rows.len() as int);
                lemma_down(lay, l, dead, c as int, c as int);
                lemma_next_header(lay, l, dead, c as int);
                assert(!pb.covered(path, c - 1));
                assert(l.size[c as int] == self.size[c as int]);
                assert(l.size[best as int] == self.size[best as int]);
                assert(l.right[c as int] == self.right[c as int]);
            }
            if best == 0 || self.size[c] < self.size[best] {
                best = c;
            }
            let nx = self.right[c];
            proof {
                let bound = if nx == 0 { lay.n } else { nx - 1 };
                assert forall|k: int| c <= k < bound implies #[trigger] pb.covered(path, k) by {
                    assert(dead.contains(k + 1));
                }
                pb.lemma_best_skip(path, c as int, bound);
            }
            c = nx;
        }
        best
    }

    /// Covers the other columns of the row of node `s`, from left to right.
    fn cover_row(&mut self, s: usize)
        requires
            old(self).wf(),
            old(self).layout().n < s < old(self).layout().total(),
            forall|u: int|
                0 <= u < old(self).layout().others(s as int).len() ==> !old(self).log@.contains(
                    old(self).layout().col[#[trigger] old(self).layout().other(s as int, u)] as int,
                ),
        ensures
            final(self).wf(),
            final(self).agrees(old(self)),
            row_covered(
                old(self).layout(),
                old(self).log@,
                old(self).marks@,
                final(self).log@,
                final(self).marks@,
                s as int,
                old(self).layout().others(s as int).len() as int,
            ),
    {
        let ghost lay = self.layout();
        let ghost log1 = self.log@;
        let ghost marks1 = self.marks@;
        let ghost m = lay.others(s as int).len() as int;
        let ghost mut t: int = 0;
        proof {
            self.lemma_rows();
            lemma_other_at(lay, self.links(), s as int, -1);
            assert(log1.take(log1.len() as int) =~= log1);
            assert(marks1.take(marks1.len() as int) =~= marks1);
        }
        let mut j = self.right[s];
        while j != s
            invariant
                self.wf(),
                self.agrees(old(self)),
                lay == self.layout(),
                log1 == old(self).log@,
                marks1 == old(self).marks@,
                lay.n < s < lay.total(),
                m == lay.others(s as int).len(),
                0 <= t <= m,
                j == lay.other(s as int, t),
                row_covered(lay, log1, marks1, self.log@, self.marks@, s as int, t),
                forall|u: int|
                    0 <= u < m ==> !log1.contains(
                        lay.col[#[trigger] lay.other(s as int, u)] as int,
                    ),
            decreases m - t,
        {
            proof {
                self.lemma_rows();
                lemma_other_at(lay, self.links(), s as int, t);
                crate::bridge::lemma_row_next_open(lay, self.links(), log1, self.log@, s as int, t);
                lemma_row_cover_step(lay, log1, marks1, self.log@, self.marks@, s as int, t);
            }
            let c = self.col[j] - 1;
            self.cover(c);
            proof {
                self.lemma_rows();
                lemma_other_at(lay, self.links(), s as int, t);
                t = t + 1;
            }
            j = self.right[j];
        }
        proof {
            self.lemma_rows();
            lemma_other_at(lay, self.links(), s as int, t);
        }
    }

    /// Uncovers the other columns of the row of node `s`, from right to
    /// left: the columns that were covered last.
    fn uncover_row(&mut self, s: usize)
        requires
            old(self).wf(),
            old(self).layout().n < s < old(self).layout().total(),
            old(self).marks@.len() >= old(self).layout().others(s as int).len(),
            forall|u: int|
                0 <= u < old(self).layout().others(s as int).len() ==> old(self).log@[old(
                    self,
                ).marks@[old(self).marks@.len() - old(self).layout().others(s as int).len() + u]]
                    == old(self).layout().col[#[trigger] old(self).layout().other(s as int, u)],
        ensures
            final(self).wf(),
            final(self).agrees(old(self)),
            final(self).marks@ == old(self).marks@.take(
                old(self).marks@.len() - old(self).layout().others(s as int).len(),
            ),
            final(self).log@ == old(self).log@.take(
                frame_end(
                    old(self).log@,
                    old(self).marks@,
                    old(self).marks@.len() - old(self).layout().others(s as int).len() - 1,
                ),
            ),
    {
        let ghost lay = self.layout();
        let ghost log1 = self.log@;
        let ghost marks1 = self.marks@;
        let ghost m = lay.others(s as int).len() as int;
        let ghost base = marks1.len() - m;
        let ghost mut t: int = m;
        proof {
            self.lemma_rows();
            lemma_other_at(lay, self.links(), s as int, m);
            assert(log1.take(log1.len() as int) =~= log1);
            assert(marks1.take(marks1.len() as int) =~= marks1);
        }
        let mut j = self.left[s];
        while j != s
            invariant
                self.wf(),
                self.agrees(old(self)),
                lay == self.layout(),
                log1 == old(self).log@,
                marks1 == old(self).marks@,
                trail_ok(lay, log1, marks1),
                lay.n < s < lay.total(),
                m == lay.others(s as int).len(),
                base == marks1.len() - m,
                base >= 0,
                0 <= t <= m,
                j == lay.other(s as int, t - 1),
                self.marks@ == marks1.take(base + t),
                self.log@ == log1.take(frame_end(log1, marks1, base + t - 1)),
                forall|u: int|
                    0 <= u < m ==> log1[marks1[base + u]] == lay.col[#[trigger] lay.other(
                        s as int,
                        u,
                    )],
            decreases t,
        {
            proof {
                self.lemma_rows();
                lemma_other_at(lay, self.links(), s as int, t - 1);
                assert(t > 0);
                lemma_trail_pop(lay, self.log@, self.marks@);
                assert(self.marks@.last() == marks1[base + t - 1]);
                assert(log1[marks1[base + t - 1]] == lay.col[lay.other(s as int, t - 1)]);
                assert(frame_ok(lay, log1, marks1, base + t - 1));
            }
            let c = self.col[j] - 1;
            self.uncover(c);
            proof {
                self.lemma_rows();
                lemma_other_at(lay, self.links(), s as int, t - 1);
                assert(self.marks@ =~= marks1.take(base + t - 1));
                assert(self.log@ =~= log1.take(marks1[base + t - 1]));
                t = t - 1;
            }
            j = self.left[j];
        }
        proof {
            self.lemma_rows();
            lemma_other_at(lay, self.links(), s as int, t - 1);
        }
    }

    /// The selection and the coverings that are in force belong together.
    spec fn following(&self) -> bool {
        let lay = self.layout();
        let pb = self.problem();
        &&& self.path@.len() == self.selected@.len()
        &&& forall|i: int|
            0 <= i < self.selected@.len() ==> lay.n < #[trigger] self.selected@[i] < lay.total()
                && self.owner@[self.selected@[i] as int] == self.path@[i]
        &&& levels_ok(lay, self.owner@, pb, self.log@, self.marks@, self.selected@, self.path@)
        &&& covers_match(lay, pb, dead_of(self.log@), self.path@)
        &&& self.emitted@ <= pb.solutions().len()
    }

    /// The search is under way.  Going down, it owes the solutions below
    /// its selection and those after it; going back, those after it.
    spec fn at(&self, descending: bool) -> bool {
        let pb = self.problem();
        &&& self.wf()
        &&& self.following()
        &&& self.phase == Phase::Running
        &&& pb.n > 0
        &&& pb.solutions().skip(self.emitted@ as int) == (if descending {
            pb.search(self.path@) + pb.rest(self.path@)
        } else {
            pb.rest(self.path@)
        })
    }

    /// The steps that the search still has to take.
    spec fn work(&self, descending: bool) -> nat {
        let pb = self.problem();
        (if descending {
            pb.tree_work(self.path@)
        } else {
            0
        }) + pb.rest_work(self.path@)
    }

    /// The number of solutions that have been handed out.
    pub closed spec fn found(&self) -> nat {
        self.emitted@
    }

    /// The matrix is consistent and its search stands where its phase says:
    /// fresh before the first solution is asked for, then between two
    /// solutions, and exhausted when all have been handed out.
    pub closed spec fn ready(&self) -> bool {
        &&& self.wf()
        &&& match self.phase {
            Phase::Fresh => self.is_fresh(),
            Phase::Running => self.at(false),
            Phase::Exhausted => self.emitted@ == self.problem().solutions().len()
                && self.log@.len() == 0 && self.marks@.len() == 0,
        }
    }

    /// A matrix that is ready is consistent; it has handed out no more
    /// solutions than there are, and all of them once it is exhausted.
    pub proof fn lemma_found_bounded(&self)
        requires
            self.ready(),
        ensures
            self.wf(),
            self.found() <= self.problem().solutions().len(),
            self.phase() == Phase::Exhausted ==> self.found() == self.problem().solutions().len(),
            self.phase() == Phase::Fresh ==> self.found() == 0,
            self.is_fresh() ==> self.phase() == Phase::Fresh,
    {
    }

    /// The positions of the selected rows, in the order of selection.
    fn selection(&self) -> (out: Vec<usize>)
        requires
            self.wf(),
            self.following(),
        ensures
            as_ints(out@) == self.path@,
    {
        let mut out: Vec<usize> = Vec::new();
        let n = self.selected.len();
        let mut i: usize = 0;
        proof {
            self.lemma_rows();
        }
        while i < n
            invariant
                self.wf(),
                self.following(),
                i <= n,
                n == self.selected.len(),
                out.len() == i,
                forall|k: int| 0 <= k < i ==> #[trigger] out[k] == self.path@[k],
            decreases n - i,
        {
            let s = self.selected[i];
            assert(self.place@[s as int] == self.owner@[s as int]);
            out.push(self.place[s]);
            i += 1;
        }
        assert(as_ints(out@) =~= self.path@);
        out
    }

    /// One step of the search on its way down: at a selection that covers
    /// every column it stays; otherwise it chooses a column and selects
    /// its first candidate, or turns back where there is none.
    fn step_down(&mut self) -> (r: Move)
        requires
            old(self).at(true),
        ensures
            final(self).problem() == old(self).problem(),
            final(self).layout() == old(self).layout(),
            final(self).built() == old(self).built(),
            final(self).found() == old(self).found(),
            match r {
                Move::Stay => *final(self) == *old(self) && final(self).problem().chosen(
                    final(self).path@,
                ) < 0,
                Move::Down => final(self).at(true) && final(self).work(true) < old(self).work(true),
                Move::Back => final(self).at(false) && final(self).work(false) < old(self).work(
                    true,
                ),
            },
    {
        let ghost lay = self.layout();
        let ghost pb = self.problem();
        let ghost owner = self.owner@;
        let ghost path = self.path@;
        let ghost log0 = self.log@;
        let ghost marks0 = self.marks@;
        let ghost sel0 = self.selected@;
        let h = self.choose_column();
        if h == 0 {
            return Move::Stay;
        }
        proof {
            self.lemma_rows();
            lemma_links_after(self.base@, lay, log0);
            lemma_lists(lay, owner, pb, dead_of(log0), path, h as int);
            pb.lemma_best_upto(path, pb.n);
        }
        if self.size[h] == 0 {
            proof {
                pb.lemma_size_upto(path, h - 1, pb.rows.len() as int);
                pb.lemma_dead_end(path);
            }
            return Move::Back;
        }
        self.cover(h - 1);
        let ghost log1 = self.log@;
        proof {
            self.lemma_rows();
            lemma_links_after(self.base@, lay, log1);
            lemma_sem_cover(lay, self.links(), log0, h as int);
            assert(log1 == log0 + cover_trace(lay, dead_of(log0), h as int));
            assert forall|x: int| lay.n < x < lay.total() && lay.col[x] == h implies (
            !#[trigger] dead_of(log1).contains(x) <==> pb.active(path, owner[x])) by {
                assert(dead_of(log1).contains(x) <==> log0.contains(x));
                assert(dead_of(log0).contains(x) <==> log0.contains(x));
            }
            assert(column_lists(lay, owner, pb, dead_of(log1), path, h as int));
            lemma_select(lay, owner, pb, self.links(), log0, log1, path, h as int, h as int);
            assert(self.links().down[h as int] == self.down[h as int]);
            lemma_size_matches(
                lay,
                owner,
                pb,
                dead_of(log1),
                path,
                h as int,
                pb.rows.len() as int,
            );
            lemma_down(lay, self.links(), dead_of(log1), h as int, h as int);
        }
        let s = self.down[h];
        let ghost r = owner[s as int];
        proof {
            pb.lemma_descend(path, r);
        }
        self.selected.push(s);
        proof {
            self.path@ = path.push(r);
        }
        self.cover_row(s);
        proof {
            self.lemma_rows();
            lemma_selected(
                lay,
                owner,
                pb,
                self.links(),
                log0,
                marks0,
                log1,
                self.log@,
                self.marks@,
                sel0,
                path,
                s,
            );
        }
        Move::Down
    }

    /// One step of the search on its way back: with nothing selected it
    /// stays; otherwise it gives up the row that was selected last and
    /// selects the next candidate of the same column, or, after the last,
    /// uncovers the column and goes on back.
    fn step_back(&mut self) -> (r: Move)
        requires
            old(self).at(false),
        ensures
            final(self).problem() == old(self).problem(),
            final(self).layout() == old(self).layout(),
            final(self).built() == old(self).built(),
            final(self).found() == old(self).found(),
            match r {
                Move::Stay => *final(self) == *old(self) && final(self).path@.len() == 0,
                Move::Down => final(self).at(true) && final(self).work(true) < old(self).work(
                    false,
                ),
                Move::Back => final(self).at(false) && final(self).work(false) < old(self).work(
                    false,
                ),
            },
    {
        let ghost lay = self.layout();
        let ghost pb = self.problem();
        let ghost owner = self.owner@;
        let ghost path = self.path@;
        let ghost log_old = self.log@;
        let ghost marks_old = self.marks@;
        let ghost sel_old = self.selected@;
        let k = self.selected.len();
        if k == 0 {
            return Move::Stay;
        }
        let s = self.selected[k - 1];
        let ghost m = lay.others(s as int).len() as int;
        let ghost f = marks_old.len() - m - 1;
        let ghost q = path.drop_last();
        let ghost r = path.last();
        let ghost log0 = log_old.take(marks_old[f]);
        let ghost marks0 = marks_old.take(f);
        let ghost log1 = log_old.take(frame_end(log_old, marks_old, f));
        proof {
            self.lemma_rows();
            assert(self.following());
            assert(levels_ok(lay, owner, pb, log_old, marks_old, sel_old, path));
            assert(path =~= q.push(r));
            assert(sel_old.last() == s);
            assert(f >= 0);
            assert(owner[s as int] == r);
            assert(lay.col[s as int] == pb.chosen(q) + 1);
            assert(frame_ok(lay, log_old, marks_old, f));
            assert(log1 =~= log0 + log_old.subrange(
                marks_old[f],
                frame_end(log_old, marks_old, f),
            ));
            assert(log_old[marks_old[f]] == lay.col[lay.other(s as int, -1)]);
            assert(log1.take(marks_old[f]) =~= log0);
            assert forall|u: int| 0 <= u < m implies log_old[marks_old[marks_old.len() - m + u]]
                == lay.col[#[trigger] lay.other(s as int, u)] by {
                assert(f + 1 + u == marks_old.len() - m + u);
                assert(log_old[marks_old[f + 1 + u]] == lay.col[lay.other(s as int, u)]);
            }
        }
        self.selected.pop();
        proof {
            self.path@ = q;
            assert(self.selected@ =~= sel_old.drop_last());
        }
        self.uncover_row(s);
        proof {
            self.lemma_rows();
            lemma_links_after(self.base@, lay, log1);
            assert(self.marks@ =~= marks_old.take(f + 1));
            assert(self.links().down[s as int] == self.down[s as int]);
            assert(lay.col[s as int] == self.col[s as int]);
            assert(1 <= lay.col[s as int]);
            lemma_select(
                lay,
                owner,
                pb,
                self.links(),
                log0,
                log1,
                q,
                lay.col[s as int] as int,
                s as int,
            );
            pb.lemma_best_upto(q, pb.n);
        }
        let h = self.col[s];
        let nx = self.down[s];
        if nx == h {
            proof {
                lemma_trail_pop(lay, self.log@, self.marks@);
                assert(self.marks@.last() == marks_old[f]);
                assert(self.log@[marks_old[f]] == log_old[marks_old[f]]);
                assert(pb.chosen(q) == lay.col[s as int] - 1);
                assert forall|k: int| r < k < pb.rows.len() implies !#[trigger] pb.candidate(
                    q,
                    pb.chosen(q),
                    k,
                ) by {
                    assert(!pb.candidate(q, lay.col[s as int] - 1, k));
                }
                pb.lemma_last_sibling(q, r);
            }
            self.uncover(h - 1);
            proof {
                assert(self.marks@ =~= marks0);
                assert(self.log@ =~= log0);
            }
            Move::Back
        } else {
            let ghost r2 = owner[nx as int];
            proof {
                assert(pb.chosen(q) == lay.col[s as int] - 1);
                assert forall|k: int| r < k < r2 implies !#[trigger] pb.candidate(
                    q,
                    pb.chosen(q),
                    k,
                ) by {
                    assert(!pb.candidate(q, lay.col[s as int] - 1, k));
                }
                pb.lemma_sibling(q, r, r2);
            }
            self.selected.push(nx);
            proof {
                self.path@ = q.push(r2);
                assert(marks_old.take(f + 1) =~= marks0.push(log0.len() as int));
            }
            self.cover_row(nx);
            proof {
                self.lemma_rows();
                lemma_selected(
                    lay,
                    owner,
                    pb,
                    self.links(),
                    log0,
                    marks0,
                    log1,
                    self.log@,
                    self.marks@,
                    sel_old.drop_last(),
                    q,
                    nx,
                );
            }
            Move::Down
        }
    }

    /// Hands out the next solution: the positions of its rows in the
    /// order in which the search selected them.  Returns `None` once every
    /// solution has been handed out, and from then on always.  The search
    /// only relinks: no node comes or goes.
    pub fn next_solution(&mut self) -> (r: Option<Vec<usize>>)
        requires
            old(self).ready(),
        ensures
            final(self).ready(),
            final(self).wf(),
            final(self).problem() == old(self).problem(),
            final(self).layout() == old(self).layout(),
            final(self).built() == old(self).built(),
            old(self).phase() == Phase::Exhausted ==> r is None,
            match r {
                Some(v) => {
                    &&& old(self).found() < old(self).problem().solutions().len()
                    &&& as_ints(v@) == old(self).problem().solutions()[old(self).found() as int]
                    &&& old(self).problem().is_exact_cover(
                        old(self).problem().solutions()[old(self).found() as int],
                    )
                    &&& forall|i: int|
                        0 <= i < v.len() ==> (#[trigger] v[i]) < old(self).problem().rows.len()
                    &&& final(self).found() == old(self).found() + 1
                    &&& final(self).phase() == Phase::Running
                },
                None => {
                    &&& old(self).found() == old(self).problem().solutions().len()
                    &&& final(self).found() == old(self).found()
                    &&& final(self).phase() == Phase::Exhausted
                    &&& final(self).log() == Seq::<int>::empty()
                    &&& final(self).marks() == Seq::<int>::empty()
                    &&& final(self).links() == final(self).built()
                },
            },
    {
        let ghost pb = self.problem();
        let mut descending: bool = false;
        match self.phase {
            Phase::Exhausted => {
                return None;
            },
            Phase::Fresh => {
                if self.n_cols == 0 {
                    self.phase = Phase::Exhausted;
                    return None;
                }
                self.phase = Phase::Running;
                descending = true;
                proof {
                    assert(self.path@ =~= Seq::<int>::empty());
                    assert(pb.solutions().skip(0) =~= pb.search(self.path@) + pb.rest(
                        self.path@,
                    ));
                }
            },
            Phase::Running => {},
        }
        loop
            invariant
                self.at(descending),
                self.problem() == pb,
                pb == old(self).problem(),
                self.layout() == old(self).layout(),
                self.base@ == old(self).base@,
                self.emitted@ == old(self).emitted@,
                old(self).phase != Phase::Exhausted,
            decreases self.work(descending),
        {
            let mv = if descending {
                self.step_down()
            } else {
                self.step_back()
            };
            match mv {
                Move::Stay => {
                    if descending {
                        let out = self.selection();
                        proof {
                            pb.lemma_leaf(self.path@, pb.solutions(), self.emitted@ as int);
                            pb.lemma_solutions_are_exact_covers(self.emitted@ as int);
                            assert forall|i: int| 0 <= i < out.len() implies (#[trigger] out[i])
                                < pb.rows.len() by {
                                assert(as_ints(out@)[i] == out[i]);
                                assert(0 <= self.path@[i] < pb.rows.len());
                            }
                            self.emitted@ = self.emitted@ + 1;
                        }
                        return Some(out);
                    } else {
                        proof {
                            assert(pb.rest(self.path@) =~= Seq::<Seq<int>>::empty());
                            assert(pb.solutions().skip(self.emitted@ as int).len() == 0);
                            assert(self.selected@.len() == 0);
                            assert(self.log@ =~= Seq::<int>::empty());
                            assert(self.marks@ =~= Seq::<int>::empty());
                        }
                        self.phase = Phase::Exhausted;
                        return None;
                    }
                },
                Move::Down => {
                    descending = true;
                },
                Move::Back => {
                    descending = false;
                },
            }
        }
    }

    /// Hands out all solutions that have not been handed out yet, in the
    /// order in which `next_solution` would.
    pub fn all_solutions(&mut self) -> (out: Vec<Vec<usize>>)
        requires
            old(self).ready(),
        ensures
            final(self).ready(),
            final(self).wf(),
            final(self).problem() == old(self).problem(),
            final(self).layout() == old(self).layout(),
            final(self).built() == old(self).built(),
            final(self).phase() == Phase::Exhausted,
            final(self).log() == Seq::<int>::empty(),
            final(self).marks() == Seq::<int>::empty(),
            final(self).links() == final(self).built(),
            final(self).found() == old(self).problem().solutions().len(),
            out.len() == old(self).problem().solutions().len() - old(self).found(),
            forall|k: int|
                0 <= k < out.len() ==> as_ints(#[trigger] out[k]@) == old(
                    self,
                ).problem().solutions()[old(self).found() + k],
            forall|k: int, i: int|
                0 <= k < out.len() && 0 <= i < out[k].len() ==> (#[trigger] out[k][i]) < old(
                    self,
                ).problem().rows.len(),
    {
        let ghost pb = self.problem();
        let ghost e0 = self.found();
        let mut out: Vec<Vec<usize>> = Vec::new();
        proof {
            self.lemma_found_bounded();
        }
        loop
            invariant
                self.ready(),
                self.problem() == pb,
                pb == old(self).problem(),
                self.layout() == old(self).layout(),
                self.built() == old(self).built(),
                e0 == old(self).found(),
                e0 <= self.found() <= pb.solutions().len(),
                out.len() == self.found() - e0,
                forall|k: int|
                    0 <= k < out.len() ==> as_ints(#[trigger] out[k]@) == pb.solutions()[e0 + k],
                forall|k: int, i: int|
                    0 <= k < out.len() && 0 <= i < out[k].len() ==> (#[trigger] out[k][i])
                        < pb.rows.len(),
            decreases pb.solutions().len() - self.found(),
        {
            match self.next_solution() {
                Some(v) => {
                    out.push(v);
                },
                None => {
                    return out;
                },
            }
        }
    }

    /// What `next_solution` does, as a relation between the matrix before,
    /// what is handed out, and the matrix after.
    pub open spec fn handed_out(&self, r: Option<Seq<int>>, after: &Matrix) -> bool {
        let pb = self.problem();
        &&& after.ready()
        &&& after.problem() == pb
        &&& match r {
            Some(v) => {
                &&& self.found() < pb.solutions().len()
                &&& v == pb.solutions()[self.found() as int]
                &&& after.found() == self.found() + 1
                &&& after.phase() == Phase::Running
            },
            None => {
                &&& self.found() == pb.solutions().len()
                &&& after.found() == self.found()
                &&& after.phase() == Phase::Exhausted
            },
        }
    }

    /// What `all_solutions` does, as a relation between the matrix before,
    /// what is handed out, and the matrix after.
    pub open spec fn drained(&self, out: Seq<Seq<int>>, after: &Matrix) -> bool {
        let pb = self.problem();
        &&& after.ready()
        &&& after.problem() == pb
        &&& after.phase() == Phase::Exhausted
        &&& after.found() == pb.solutions().len()
        &&& out.len() == pb.solutions().len() - self.found()
        &&& forall|k: int|
            0 <= k < out.len() ==> #[trigger] out[k] == pb.solutions()[self.found() + k]
    }

    /// Once the search is exhausted, asking again yields nothing and leaves
    /// it exhausted, however often.
    pub proof fn lemma_exhausted_stays(before: Matrix, r: Option<Seq<int>>, after: Matrix)
        requires
            before.ready(),
            before.phase() == Phase::Exhausted,
            before.handed_out(r, &after),
        ensures
            r is None,
            after.phase() == Phase::Exhausted,
            after.found() == before.found(),
    {
        before.lemma_found_bounded();
    }

    /// Asking for one solution after the other until there is none hands
    /// out the same list as asking for all at once.
    pub proof fn lemma_all_is_repeated_next(
        states: Seq<Matrix>,
        results: Seq<Seq<int>>,
        end: Matrix,
        all: Seq<Seq<int>>,
        drained: Matrix,
    )
        requires
            states.len() == results.len() + 1,
            states[0].ready(),
            forall|i: int|
                0 <= i < results.len() ==> (#[trigger] states[i]).handed_out(
                    Some(results[i]),
                    &states[i + 1],
                ),
            states.last().handed_out(None, &end),
            states[0].drained(all, &drained),
        ensures
            all == results,
    {
        let pb = states[0].problem();
        let e0 = states[0].found();
        Self::lemma_chain(states, results, results.len() as int);
        assert(all =~= results);
    }

    /// After `k` solutions in a row, `k` more have been handed out, each
    /// the one that was due.
    pub proof fn lemma_chain(states: Seq<Matrix>, results: Seq<Seq<int>>, k: int)
        requires
            states.len() == results.len() + 1,
            0 <= k <= results.len(),
            forall|i: int|
                0 <= i < results.len() ==> (#[trigger] states[i]).handed_out(
                    Some(results[i]),
                    &states[i + 1],
                ),
        ensures
            states[k].problem() == states[0].problem(),
            states[k].found() == states[0].found() + k,
            forall|i: int|
                0 <= i < k ==> #[trigger] results[i] == states[0].problem().solutions()[states[0]
                .found() + i],
        decreases k,
    {
        if k > 0 {
            Self::lemma_chain(states, results, k - 1);
            assert(states[k - 1].handed_out(Some(results[k - 1]), &states[k - 1 + 1]));
        }
    }

    /// The solutions and their order depend on nothing but the rows and the
    /// number of columns: two matrices with the same rows that have handed
    /// out equally many solutions hand out the same one next.
    pub proof fn lemma_same_rows_same_solutions(
        a: Matrix,
        ra: Option<Seq<int>>,
        a2: Matrix,
        b: Matrix,
        rb: Option<Seq<int>>,
        b2: Matrix,
    )
        requires
            a.problem() == b.problem(),
            a.found() == b.found(),
            a.handed_out(ra, &a2),
            b.handed_out(rb, &b2),
        ensures
            ra == rb,
            a2.problem() == b2.problem(),
            a2.found() == b2.found(),
    {
    }

    /// The rows fix where the nodes stand and how they are linked before
    /// any column is covered: two matrices with the same rows agree in both.
    pub proof fn lemma_rows_fix_the_links(a: Matrix, b: Matrix)
        requires
            a.wf(),
            b.wf(),
            a.problem() == b.problem(),
        ensures
            a.layout() == b.layout(),
            a.built() == b.built(),
    {
        let la = a.layout();
        let lb = b.layout();
        let pb = a.problem();
        a.lemma_rows();
        b.lemma_rows();
        assert forall|x: int| 0 <= x < la.total() implies la.col[x] == lb.col[x] && la.row[x]
            == lb.row[x] && la.last[x] == lb.last[x] by {
            if x > la.n {
                let r1 = a.owner@[x];
                let r2 = b.owner@[x];
                assert(pb.row_ok(pb.rows[r1]));
                assert(pb.row_ok(pb.rows[r2]));
                assert(1 <= la.col[x] && 1 <= lb.col[x]);
                if r1 < r2 {
                    pb.lemma_first_node_ascends(r1, r2);
                } else if r2 < r1 {
                    pb.lemma_first_node_ascends(r2, r1);
                }
            } else {
                assert(la.col[x] == x && lb.col[x] == x);
            }
        }
        assert(la.col =~= lb.col);
        assert(la.row =~= lb.row);
        assert(la.last =~= lb.last);
        crate::links::lemma_links_fixed(a.base@, b.base@, la);
    }

    /// Where the search stands.
    pub fn state(&self) -> (p: Phase)
        ensures
            p == self.phase(),
    {
        self.phase
    }

    /// The number of nodes: the root, the headers and the ones of the rows.
    pub fn node_count(&self) -> (k: usize)
        requires
            self.wf(),
        ensures
            k == self.layout().total(),
            k == self.problem().first_node(self.problem().rows.len() as int),
    {
        proof {
            self.lemma_rows();
        }
        self.col.len()
    }

    /// The links of node `x`: left, right, up and down.
    pub fn links_at(&self, x: usize) -> (r: (usize, usize, usize, usize))
        requires
            self.wf(),
            x < self.layout().total(),
        ensures
            r.0 == self.links().left[x as int],
            r.1 == self.links().right[x as int],
            r.2 == self.links().up[x as int],
            r.3 == self.links().down[x as int],
    {
        proof {
            self.lemma_rows();
        }
        (self.left[x], self.right[x], self.up[x], self.down[x])
    }

    /// The number of linked ones of column `c`.
    pub fn size_of(&self, c: usize) -> (k: usize)
        requires
            self.wf(),
            c < self.problem().n,
        ensures
            k == self.links().size[c + 1],
    {
        proof {
            lemma_links_after(self.base@, self.layout(), self.log@);
        }
        self.size[c + 1]
    }

    /// Covering a column and then uncovering it leaves every link of every
    /// node, and every size, as it was before.
    pub proof fn lemma_cover_then_uncover_restores(
        before: Matrix,
        covered: Matrix,
        after: Matrix,
        c: int,
    )
        requires
            before.wf(),
            covered.covered_from(&before, c),
            after.uncovered_from(&covered),
        ensures
            after.links() == before.links(),
            after.log() == before.log(),
            after.marks() == before.marks(),
            after.agrees(&before),
            before.ready() ==> after.ready(),
    {
        let tr = cover_trace(before.layout(), dead_of(before.log()), c + 1);
        assert((before.log() + tr).take(before.log().len() as int) =~= before.log());
        assert(before.marks().push(before.log().len() as int).drop_last() =~= before.marks());
    }

    /// A matrix with `n_cols` columns and no rows.
    pub fn new(n_cols: usize) -> (m: Self)
        requires
            n_cols < usize::MAX,
        ensures
            m.wf(),
            m.ready(),
            m.is_fresh(),
            m.problem() == (Incidence { n: n_cols as int, rows: Seq::empty() }),
            m.log() == Seq::<int>::empty(),
            m.marks() == Seq::<int>::empty(),
            m.links() == m.built(),
    {
        let mut left: Vec<usize> = Vec::new();
        let mut right: Vec<usize> = Vec::new();
        let mut up: Vec<usize> = Vec::new();
        let mut down: Vec<usize> = Vec::new();
        let mut col: Vec<usize> = Vec::new();
        let mut row: Vec<usize> = Vec::new();
        let mut size: Vec<usize> = Vec::new();
        let mut place: Vec<usize> = Vec::new();
        let mut last: Ghost<Seq<int>> = Ghost(Seq::empty());
        let mut owner: Ghost<Seq<int>> = Ghost(Seq::empty());
        let mut x: usize = 0;
        while x <= n_cols
            invariant
                n_cols < usize::MAX,
                x <= n_cols + 1,
                left.len() == x,
                right.len() == x,
                up.len() == x,
                down.len() == x,
                col.len() == x,
                row.len() == x,
                size.len() == x,
                place.len() == x,
                last@.len() == x,
                owner@.len() == x,
                forall|k: int|
                    #![trigger left[k]]
                    #![trigger right[k]]
                    #![trigger up[k]]
                    #![trigger down[k]]
                    #![trigger col[k]]
                    #![trigger row[k]]
                    #![trigger size[k]]
                    #![trigger last@[k]]
                    0 <= k < x ==> {
                        &&& left[k] == (if k == 0 {
                            n_cols as int
                        } else {
                            k - 1
                        })
                        &&& right[k] == (if k == n_cols {
                            0
                        } else {
                            k + 1
                        })
                        &&& up[k] == k
                        &&& down[k] == k
                        &&& col[k] == k
                        &&& row[k] == k
                        &&& size[k] == 0
                        &&& last@[k] == k
                    },
            decreases n_cols + 1 - x,
        {
            left.push(if x == 0 { n_cols } else { x - 1 });
            right.push(if x == n_cols { 0 } else { x + 1 });
            up.push(x);
            down.push(x);
            col.push(x);
            row.push(x);
            size.push(0);
            place.push(0);
            proof {
                last@ = last@.push(x as int);
                owner@ = owner@.push(0);
            }
            x += 1;
        }
        let m = Matrix {
            n_cols,
            left,
            right,
            up,
            down,
            col,
            row,
            size,
            place,
            starts: Vec::new(),
            selected: Vec::new(),
            phase: Phase::Fresh,
            last,
            owner,
            rows: Ghost(Seq::empty()),
            base: Ghost(initial_links(n_cols as int)),
            log: Ghost(Seq::empty()),
            marks: Ghost(Seq::empty()),
            path: Ghost(Seq::empty()),
            emitted: Ghost(0),
        };
        proof {
            let n = n_cols as int;
            lemma_initial(n);
            assert(m.layout().col =~= initial_layout(n).col);
            assert(m.layout().row =~= initial_layout(n).row);
            assert(m.layout().last =~= initial_layout(n).last);
            assert(m.layout() == initial_layout(n));
            assert(m.links().left =~= initial_links(n).left);
            assert(m.links().right =~= initial_links(n).right);
            assert(m.links().up =~= initial_links(n).up);
            assert(m.links().down =~= initial_links(n).down);
            assert(m.links().size =~= initial_links(n).size);
            assert(m.links() == initial_links(n));
            assert(m.log@ =~= Seq::<int>::empty());
            assert(m.marks@ =~= Seq::<int>::empty());
        }
        m
    }

    /// The number of columns.
    pub fn columns(&self) -> (n: usize)
        ensures
            n == self.problem().n,
    {
        self.n_cols
    }

    /// Adds a row with a one in each of the columns that `row` names.  A
    /// row without ones can be part of no cover and is not stored.
    pub fn add_row(&mut self, row: &Vec<usize>)
        requires
            old(self).wf(),
            old(self).is_fresh(),
            row@.no_duplicates(),
            forall|j: int| 0 <= j < row.len() ==> row[j] < old(self).problem().n,
        ensures
            final(self).wf(),
            final(self).ready(),
            final(self).is_fresh(),
            final(self).problem() == (if row.len() == 0 {
                old(self).problem()
            } else {
                old(self).problem().with_row(as_ints(row@))
            }),
            final(self).log() == Seq::<int>::empty(),
            final(self).marks() == Seq::<int>::empty(),
            final(self).links() == final(self).built(),
    {
        let k = row.len();
        proof {
            assert(self.log@ =~= Seq::<int>::empty());
            assert(self.marks@ =~= Seq::<int>::empty());
        }
        if k == 0 {
            return ;
        }
        let first = self.col.len();
        let position = self.starts.len();
        let ghost lastv: int = first + k - 1;
        let ghost rix: int = self.rows@.len() as int;
        let ghost old_lay = self.layout();
        let ghost old_links = self.links();
        let ghost old_owner = self.owner@;
        proof {
            assert(self.links() == self.base@);
        }
        let mut p: usize = 0;
        while p < k
            invariant
                p <= k,
                k == row.len(),
                k > 0,
                row@.no_duplicates(),
                forall|j: int| 0 <= j < row.len() ==> row[j] < self.n_cols,
                self.n_cols == old(self).n_cols,
                self.rows == old(self).rows,
                self.phase == old(self).phase,
                self.log == old(self).log,
                self.marks == old(self).marks,
                self.path == old(self).path,
                self.selected == old(self).selected,
                self.emitted == old(self).emitted,
                self.starts == old(self).starts,
                position == rix,
                self.place@.len() == first + p,
                forall|y: int| 0 <= y < first ==> #[trigger] self.place@[y] == old(self).place@[y],
                forall|y: int| first <= y < first + p ==> #[trigger] self.place@[y] == rix,
                old_lay == old(self).layout(),
                old_links == old(self).links(),
                old_owner == old(self).owner@,
                old_lay.complete(),
                old_lay.shape(),
                old_owner.len() == old_lay.total(),
                old_links.left.len() == old_lay.total(),
                old_links.right.len() == old_lay.total(),
                rows_ok(old_links, old_lay),
                first == old_lay.total(),
                lastv == first + k - 1,
                rix == old(self).rows@.len(),
                self.n_cols < first,
                self.col.len() == first + p,
                self.owner@.len() == first + p,
                in_order(self.links(), self.layout(), Set::empty()),
                forall|y: int|
                    #![trigger self.col[y]]
                    #![trigger self.row[y]]
                    #![trigger self.last@[y]]
                    #![trigger self.owner@[y]]
                    0 <= y < first ==> {
                        &&& self.col[y] == old_lay.col[y]
                        &&& self.row[y] == old_lay.row[y]
                        &&& self.last@[y] == old_lay.last[y]
                        &&& self.owner@[y] == old_owner[y]
                    },
                forall|y: int|
                    #![trigger self.left[y]]
                    #![trigger self.right[y]]
                    self.n_cols < y < first ==> self.left[y] == old_links.left[y] && self.right[y]
                        == old_links.right[y],
                forall|y: int|
                    #![trigger self.col[y]]
                    #![trigger self.row[y]]
                    #![trigger self.last@[y]]
                    #![trigger self.owner@[y]]
                    #![trigger self.left[y]]
                    #![trigger self.right[y]]
                    first <= y < first + p ==> {
                        &&& self.col[y] == row[y - first] + 1
                        &&& self.row[y] == first
                        &&& self.last@[y] == lastv
                        &&& self.owner@[y] == rix
                        &&& self.right[y] == y + 1
                        &&& self.left[y] == (if y == first {
                            y
                        } else {
                            y - 1
                        })
                    },
            decreases k - p,
        {
            let h = row[p] + 1;
            let x = self.col.len();
            let u = self.up[h];
            let ghost lay0 = self.layout();
            let ghost l0 = self.links();
            let ghost lf: int = if p == 0 { x as int } else { x - 1 };
            self.col.push(h);
            self.row.push(first);
            self.place.push(position);
            let x1 = self.col.len();
            self.left.push(if p == 0 { x } else { x - 1 });
            self.right.push(x1);
            self.up.push(u);
            self.down.push(h);
            proof {
                let lay2 = appended_layout(lay0, h as int, first as int, lastv);
                assert forall|a: int, b: int|
                    lay2.n < a < lay2.total() && lay2.n < b < lay2.total()
                        && #[trigger] lay2.in_row(a, b) implies lay2.row[b] == lay2.row[a]
                    && lay2.last[b] == lay2.last[a] && (a != b ==> lay2.col[a] != lay2.col[b]) by {
                    if a < first {
                        assert(lay0.col[a] == old_lay.col[a]);
                        assert(lay0.row[a] == old_lay.row[a]);
                        assert(lay0.last[a] == old_lay.last[a]);
                        assert(old_lay.last[a] < first);
                        assert(b < first);
                        assert(lay0.in_row(a, b));
                    } else {
                        assert(lay2.row[a] == first);
                        assert(lay2.last[a] == lastv);
                        assert(b >= first);
                        assert(lay2.row[b] == first);
                        assert(lay2.last[b] == lastv);
                        assert(lay2.col[a] == row@[a - first] + 1);
                        assert(lay2.col[b] == row@[b - first] + 1);
                        if a != b {
                            assert(row@[a - first] != row@[b - first]);
                        }
                    }
                }
                assert forall|a: int| lay2.n < a < lay2.total() implies 1 <= #[trigger] lay2.col[a]
                    <= lay2.n && lay2.n < lay2.row[a] <= a <= lay2.last[a] by {
                    if a < first + p {
                        assert(lay0.col[a] == lay2.col[a]);
                        if a >= first {
                            assert(lay0.col[a] == row[a - first] + 1);
                        }
                    }
                }
                assert(lay2.shape());
                lemma_append(l0, lay0, h as int, first as int, lastv, lf, x + 1);
            }
            self.down[u] = x;
            self.up[h] = x;
            let s = self.size[h];
            self.size[h] = s + 1;
            proof {
                self.last@ = self.last@.push(lastv);
                self.owner@ = self.owner@.push(rix);
                assert(self.layout() == appended_layout(lay0, h as int, first as int, lastv));
                let l2 = appended_links(l0, h as int, lf, x + 1);
                assert(self.links().left =~= l2.left);
                assert(self.links().right =~= l2.right);
                assert(self.links().up =~= l2.up);
                assert(self.links().down =~= l2.down);
                assert(self.links().size =~= l2.size);
                assert(self.links() == l2);
            }
            p += 1;
        }
        let lastn = self.col.len() - 1;
        let ghost l1 = self.links();
        self.left[first] = lastn;
        self.right[lastn] = first;
        self.starts.push(first);
        proof {
            let lay = self.layout();
            let l2 = self.links();
            let n = self.n_cols as int;
            let dead = Set::<int>::empty();
            self.rows@ = self.rows@.push(as_ints(row@));
            self.base@ = l2;
            // the rings are as they were before the ends of the row were joined
            lemma_ring_frame(
                l1.right,
                l1.left,
                l2.right,
                l2.left,
                0,
                1,
                n + 1,
                crate::links::hmem(dead),
                crate::links::hmem(dead),
            );
            assert forall|h: int| 1 <= h <= n implies #[trigger] crate::links::column_ok(
                l2,
                lay,
                dead,
                h,
            ) by {
                assert(crate::links::column_ok(l1, lay, dead, h));
            }
            assert(in_order(l2, lay, dead));
            assert forall|x: int|
                #![trigger l2.right[x]]
                #![trigger l2.left[x]]
                lay.n < x < lay.total() implies l2.right[x] == (if x == lay.last[x] {
                lay.row[x] as int
            } else {
                x + 1
            }) && l2.left[x] == (if x == lay.row[x] {
                lay.last[x]
            } else {
                x - 1
            }) by {
                if x < first {
                    assert(self.col[x] == old_lay.col[x]);
                    assert(self.row[x] == old_lay.row[x]);
                    assert(self.last@[x] == old_lay.last[x]);
                    assert(l1.right[x] == old_links.right[x]);
                    assert(l1.left[x] == old_links.left[x]);
                    assert(old_lay.last[x] < first);
                } else {
                    assert(self.row[x] == first);
                    assert(self.last@[x] == lastv);
                    assert(l1.right[x] == x + 1);
                }
            }
            assert(rows_ok(l2, lay));
            assert(lay.complete()) by {
                assert forall|x: int| lay.n < x < lay.total() implies #[trigger] lay.last[x]
                    < lay.total() by {
                    if x < first {
                        assert(self.last@[x] == old_lay.last[x]);
                        assert(old_lay.last[x] < old_lay.total());
                    } else {
                        assert(self.last@[x] == lastv);
                    }
                }
            }
            // the arena mirrors the rows
            let pb0 = old(self).problem();
            let pb = self.problem();
            assert(pb == pb0.with_row(as_ints(row@)));
            assert(pb.valid()) by {
                assert forall|r: int| 0 <= r < pb.rows.len() implies pb.row_ok(
                    #[trigger] pb.rows[r],
                ) by {
                    if r < pb0.rows.len() {
                        assert(pb0.row_ok(pb0.rows[r]));
                    } else {
                        let nr = as_ints(row@);
                        assert forall|a: int, b: int|
                            0 <= a < nr.len() && 0 <= b < nr.len() && a != b implies nr[a]
                            != nr[b] by {
                            assert(row@[a] != row@[b]);
                        }
                    }
                }
            }
            pb0.lemma_first_node_with_row(as_ints(row@), rix);
            assert(pb.first_node(rix + 1) == pb.first_node(rix) + pb.rows[rix].len());
            assert forall|x: int| lay.n < x < lay.total() implies ({
                let r = #[trigger] self.owner@[x];
                &&& 0 <= r < pb.rows.len()
                &&& lay.row[x] == pb.first_node(r)
                &&& lay.last[x] == lay.row[x] + pb.rows[r].len() - 1
                &&& lay.col[x] == pb.rows[r][x - lay.row[x]] + 1
            }) by {
                if x < first {
                    let r = old_owner[x];
                    assert(self.col[x] == old_lay.col[x]);
                    assert(self.row[x] == old_lay.row[x]);
                    assert(self.last@[x] == old_lay.last[x]);
                    assert(self.owner@[x] == old_owner[x]);
                    pb0.lemma_first_node_with_row(as_ints(row@), r);
                    assert(pb.rows[r] == pb0.rows[r]);
                } else {
                    assert(self.col[x] == row[x - first] + 1);
                    assert(self.row[x] == first);
                    assert(self.last@[x] == lastv);
                    assert(self.owner@[x] == rix);
                }
            }
            assert forall|x: int| lay.n < x < lay.total() implies #[trigger] self.place@[x]
                == self.owner@[x] by {
                if x < first {
                    assert(self.place@[x] == old(self).place@[x]);
                    assert(old(self).place@[x] == old_owner[x]);
                    assert(self.owner@[x] == old_owner[x]);
                } else {
                    assert(self.owner@[x] == rix);
                }
            }
            assert forall|r: int| 0 <= r < pb.rows.len() implies #[trigger] self.starts@[r]
                == pb.first_node(r) by {
                pb0.lemma_first_node_with_row(as_ints(row@), r);
                if r < rix {
                    assert(self.starts@[r] == old(self).starts@[r]);
                }
            }
        }
    }

    /// The columns in which row `r` has its ones, in the order in which
    /// they were given.
    pub fn row(&self, r: usize) -> (out: Vec<usize>)
        requires
            self.wf(),
            r < self.problem().rows.len(),
        ensures
            as_ints(out@) == self.problem().rows[r as int],
    {
        let ghost lay = self.layout();
        let ghost pb = self.problem();
        proof {
            lemma_links_after(self.base@, lay, self.log@);
            pb.lemma_first_node_ascends(r as int, pb.rows.len() as int);
            pb.lemma_first_node_ascends(0, r as int);
            assert(pb.row_ok(pb.rows[r as int]));
            assert(self.starts@[r as int] == pb.first_node(r as int));
        }
        let id = self.starts[r];
        proof {
            let r1 = self.owner@[id as int];
            assert(pb.row_ok(pb.rows[r1]));
            if r1 < r {
                pb.lemma_first_node_ascends(r1, r as int);
            } else if r < r1 {
                pb.lemma_first_node_ascends(r as int, r1);
            }
            assert(r1 == r);
        }
        let mut out: Vec<usize> = Vec::new();
        let mut i: usize = id;
        out.push(self.col[i] - 1);
        assert(lay.in_row(id as int, id as int));
        while self.right[i] != id
            invariant
                self.sound(),
                lay == self.layout(),
                pb == self.problem(),
                rows_ok(self.links(), lay),
                lay.shape(),
                self.right.len() == lay.total(),
                self.col.len() == lay.total(),
                0 <= r < pb.rows.len(),
                lay.n < id < lay.total(),
                self.owner@[id as int] == r,
                lay.row[id as int] == id,
                id <= i <= lay.last[id as int],
                out.len() == i - id + 1,
                forall|t: int| 0 <= t < out.len() ==> #[trigger] out[t] == pb.rows[r as int][t],
            decreases lay.last[id as int] - i,
        {
            assert(lay.in_row(id as int, i as int));
            assert(self.links().right[i as int] == self.right[i as int]);
            assert(lay.row[i as int] == id && lay.last[i as int] == lay.last[id as int]);
            i = self.right[i];
            assert(lay.in_row(id as int, i as int));
            let ghost r2 = self.owner@[i as int];
            proof {
                assert(pb.row_ok(pb.rows[r2]));
                if r2 < r {
                    pb.lemma_first_node_ascends(r2, r as int);
                } else if r < r2 {
                    pb.lemma_first_node_ascends(r as int, r2);
                }
            }
            out.push(self.col[i] - 1);
        }
        proof {
            assert(lay.in_row(id as int, i as int));
            assert(self.links().right[i as int] == self.right[i as int]);
            assert(as_ints(out@) =~= pb.rows[r as int]);
        }
        out
    }
}

} // verus!
