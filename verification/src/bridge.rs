//! How the links mirror the search: which nodes are taken out when a set of
//! columns is covered, and what the rings of the columns then hold.
use vstd::prelude::*;
use crate::exact::Incidence;
use crate::links::{
    column_intact, column_trace, cover_trace, dead_of, lemma_concat_contains, lemma_cover_headers,
    lemma_trace_has, lemma_trace_member, rows_ok, vmem, Layout, Links,
};
use crate::links::{in_order, lemma_down};
use crate::ring::{count_in, lemma_count_few, lemma_count_split};

verus! {

/// The nodes of the arena mirror the rows of the matrix: `owner` names for
/// each one the row in which it stands.
pub open spec fn arena_ok(lay: Layout, owner: Seq<int>, pb: Incidence) -> bool {
    &&& pb.valid()
    &&& pb.n == lay.n
    &&& owner.len() == lay.total()
    &&& lay.total() == pb.first_node(pb.rows.len() as int)
    &&& forall|x: int|
        lay.n < x < lay.total() ==> {
            let r = #[trigger] owner[x];
            &&& 0 <= r < pb.rows.len()
            &&& lay.row[x] == pb.first_node(r)
            &&& lay.last[x] == lay.row[x] + pb.rows[r].len() - 1
            &&& lay.col[x] == pb.rows[r][x - lay.row[x]] + 1
        }
}

/// Where the header of a column is linked, a one of the column is taken
/// out exactly if its row has a one in a column whose header is taken out.
pub open spec fn sem(lay: Layout, dead: Set<int>) -> bool {
    forall|x: int|
        lay.n < x < lay.total() && !dead.contains(lay.col[x] as int) ==> (#[trigger] dead.contains(
            x,
        ) <==> row_hit(lay, dead, x))
}

/// The row of node `x` has a one in a column whose header is taken out.
pub open spec fn row_hit(lay: Layout, dead: Set<int>, x: int) -> bool {
    exists|y: int| #[trigger] lay.in_row(x, y) && dead.contains(lay.col[y] as int)
}

/// Two nodes of one row see the same row.
pub proof fn lemma_same_row(lay: Layout, x: int, y: int)
    requires
        lay.ok(),
        lay.n < x < lay.total(),
        lay.in_row(x, y),
    ensures
        lay.n < y < lay.total(),
        lay.in_row(y, x),
        lay.row[y] == lay.row[x],
        lay.last[y] == lay.last[x],
        forall|z: int| lay.in_row(x, z) <==> lay.in_row(y, z),
        x != y ==> lay.col[x] != lay.col[y],
{
    assert(1 <= lay.col[x]);
    assert(lay.last[x] < lay.total());
}

/// A node of the row of `i` other than `i` is one of its other nodes.
pub proof fn lemma_other_index(lay: Layout, i: int, x: int) -> (t: int)
    requires
        lay.ok(),
        lay.n < i < lay.total(),
        lay.in_row(i, x),
        x != i,
    ensures
        0 <= t < lay.others(i).len(),
        lay.other(i, t) == x,
{
    assert(1 <= lay.col[i]);
    if x > i {
        x - i - 1
    } else {
        x - i + (lay.last[i] - lay.row[i])
    }
}

/// Covering a column whose header is linked: every row with a linked one
/// in it has all its ones linked before, and afterwards the picture is
/// again that of the headers that are taken out.
pub proof fn lemma_sem_cover(lay: Layout, l: Links, log: Seq<int>, h: int)
    requires
        lay.ok(),
        rows_ok(l, lay),
        sem(lay, dead_of(log)),
        1 <= h <= lay.n,
        !log.contains(h),
    ensures
        column_intact(lay, dead_of(log), h),
        sem(lay, dead_of(log + cover_trace(lay, dead_of(log), h))),
        forall|k: int|
            1 <= k <= lay.n ==> (#[trigger] dead_of(
                log + cover_trace(lay, dead_of(log), h),
            ).contains(k) <==> k == h || log.contains(k)),
        forall|x: int|
            lay.n < x < lay.total() && lay.col[x] == h ==> (#[trigger] dead_of(
                log + cover_trace(lay, dead_of(log), h),
            ).contains(x) <==> log.contains(x)),
{
    let dead = dead_of(log);
    let tr = column_trace(lay, dead, h, lay.total());
    let log2 = log + cover_trace(lay, dead, h);
    let dead2 = dead_of(log2);
    assert forall|i: int, t: int|
        vmem(lay, dead, h)(i) && 0 <= t < lay.others(i).len() implies !dead.contains(
        #[trigger] lay.other(i, t),
    ) by {
        let x = lay.other(i, t);
        lay.lemma_others(l, i);
        lemma_same_row(lay, i, x);
        if dead.contains(lay.col[x] as int) {
            assert(row_hit(lay, dead, i));
        }
        if dead.contains(x) {
            assert(row_hit(lay, dead, x));
            let y = choose|y: int| #[trigger] lay.in_row(x, y) && dead.contains(lay.col[y] as int);
            assert(lay.in_row(i, y));
            assert(row_hit(lay, dead, i));
        }
    }
    assert forall|x: int| dead2.contains(x) <==> dead.contains(x) || x == h || tr.contains(x) by {
        lemma_concat_contains(log, cover_trace(lay, dead, h), x);
        lemma_concat_contains(seq![h], tr, x);
        if seq![h].contains(x) {
            let k = choose|k: int| 0 <= k < seq![h].len() && seq![h][k] == x;
        }
        if x == h {
            assert(seq![h][0] == x);
        }
    }
    assert forall|k: int| 1 <= k <= lay.n implies (#[trigger] dead2.contains(k) <==> k == h
        || log.contains(k)) by {
        if tr.contains(k) {
            let w = lemma_trace_member(lay, dead, h, lay.total(), k);
        }
    }
    assert forall|x: int| lay.n < x < lay.total() && lay.col[x] == h implies (
    #[trigger] dead2.contains(x) <==> log.contains(x)) by {
        if tr.contains(x) {
            let w = lemma_trace_member(lay, dead, h, lay.total(), x);
        }
    }
    assert forall|x: int|
        lay.n < x < lay.total() && !dead2.contains(lay.col[x] as int) implies (
    #[trigger] dead2.contains(x) <==> row_hit(lay, dead2, x)) by {
        assert(1 <= lay.col[x] <= lay.n);
        assert(!dead.contains(lay.col[x] as int));
        assert(lay.col[x] != h);
        if dead2.contains(x) {
            if dead.contains(x) {
                assert(row_hit(lay, dead, x));
                let y = choose|y: int|
                    #[trigger] lay.in_row(x, y) && dead.contains(lay.col[y] as int);
                assert(dead2.contains(lay.col[y] as int));
            } else {
                let w = lemma_trace_member(lay, dead, h, lay.total(), x);
                lemma_same_row(lay, w, x);
                assert(lay.in_row(x, w));
                assert(dead2.contains(lay.col[w] as int));
            }
        }
        if row_hit(lay, dead2, x) {
            let y = choose|y: int| #[trigger] lay.in_row(x, y) && dead2.contains(lay.col[y] as int);
            lemma_same_row(lay, x, y);
            assert(1 <= lay.col[y] <= lay.n);
            if tr.contains(lay.col[y] as int) {
                let w = lemma_trace_member(lay, dead, h, lay.total(), lay.col[y] as int);
            }
            if dead.contains(lay.col[y] as int) {
                assert(row_hit(lay, dead, x));
            } else {
                assert(lay.col[y] == h);
                if row_hit(lay, dead, x) {
                } else {
                    if dead.contains(y) {
                        assert(row_hit(lay, dead, y));
                        let z = choose|z: int|
                            #[trigger] lay.in_row(y, z) && dead.contains(lay.col[z] as int);
                        assert(lay.in_row(x, z));
                    }
                    assert(vmem(lay, dead, h)(y));
                    let t = lemma_other_index(lay, y, x);
                    lemma_trace_has(lay, dead, h, lay.total(), y, t);
                }
            }
        }
    }
}

/// Where the stretch of the log ends that belongs to the `k`-th covering.
pub open spec fn frame_end(log: Seq<int>, marks: Seq<int>, k: int) -> int {
    if k + 1 < marks.len() {
        marks[k + 1]
    } else {
        log.len() as int
    }
}

/// The `k`-th covering that is still in force: the log holds, from its
/// mark on, what covering that column took out.
pub open spec fn frame_ok(lay: Layout, log: Seq<int>, marks: Seq<int>, k: int) -> bool {
    let a = marks[k];
    let b = frame_end(log, marks, k);
    &&& 0 <= a < b <= log.len()
    &&& 1 <= log[a] <= lay.n
    &&& !log.take(a).contains(log[a])
    &&& log.subrange(a, b) == cover_trace(lay, dead_of(log.take(a)), log[a])
    &&& sem(lay, dead_of(log.take(a)))
}

/// The log is the record of the coverings that are in force, one after
/// the other.
pub open spec fn trail_ok(lay: Layout, log: Seq<int>, marks: Seq<int>) -> bool {
    &&& forall|k: int| 0 <= k < marks.len() ==> #[trigger] frame_ok(lay, log, marks, k)
    &&& sem(lay, dead_of(log))
}

/// The headers of the columns that are covered, in the order of covering.
pub open spec fn headers(log: Seq<int>, marks: Seq<int>) -> Seq<int> {
    Seq::new(marks.len(), |k: int| log[marks[k]])
}

/// A further covering extends the record of the coverings.
pub proof fn lemma_trail_push(lay: Layout, l: Links, log: Seq<int>, marks: Seq<int>, h: int)
    requires
        lay.ok(),
        rows_ok(l, lay),
        trail_ok(lay, log, marks),
        1 <= h <= lay.n,
        !log.contains(h),
    ensures
        trail_ok(lay, log + cover_trace(lay, dead_of(log), h), marks.push(log.len() as int)),
        headers(log + cover_trace(lay, dead_of(log), h), marks.push(log.len() as int)) == headers(
            log,
            marks,
        ).push(h),
{
    let tr = cover_trace(lay, dead_of(log), h);
    let log2 = log + tr;
    let marks2 = marks.push(log.len() as int);
    lemma_sem_cover(lay, l, log, h);
    assert(tr[0] == h);
    assert forall|k: int| 0 <= k < marks2.len() implies #[trigger] frame_ok(
        lay,
        log2,
        marks2,
        k,
    ) by {
        if k < marks.len() {
            assert(frame_ok(lay, log, marks, k));
            let a = marks[k];
            let b = frame_end(log, marks, k);
            assert(frame_end(log2, marks2, k) == b);
            assert(log2.take(a) =~= log.take(a));
            assert(log2.subrange(a, b) =~= log.subrange(a, b));
        } else {
            assert(log2.take(log.len() as int) =~= log);
            assert(log2.subrange(log.len() as int, log2.len() as int) =~= tr);
        }
    }
    assert forall|k: int| 0 <= k < marks.len() implies headers(log2, marks2)[k] == headers(
        log,
        marks,
    )[k] by {
        assert(frame_ok(lay, log, marks, k));
    }
    assert(headers(log2, marks2) =~= headers(log, marks).push(h));
}

/// Without its last covering, the record is that of the coverings before;
/// the log ends with what that covering took out.
pub proof fn lemma_trail_pop(lay: Layout, log: Seq<int>, marks: Seq<int>)
    requires
        trail_ok(lay, log, marks),
        marks.len() > 0,
    ensures
        0 <= marks.last() < log.len(),
        1 <= log[marks.last()] <= lay.n,
        log == log.take(marks.last()) + cover_trace(
            lay,
            dead_of(log.take(marks.last())),
            log[marks.last()],
        ),
        trail_ok(lay, log.take(marks.last()), marks.drop_last()),
        headers(log.take(marks.last()), marks.drop_last()) == headers(log, marks).drop_last(),
{
    let p = marks.last();
    let log2 = log.take(p);
    let marks2 = marks.drop_last();
    assert(frame_ok(lay, log, marks, marks.len() - 1));
    assert(log =~= log.take(p) + log.subrange(p, log.len() as int));
    assert forall|k: int| 0 <= k < marks2.len() implies #[trigger] frame_ok(
        lay,
        log2,
        marks2,
        k,
    ) by {
        assert(frame_ok(lay, log, marks, k));
        let a = marks[k];
        let b = frame_end(log, marks, k);
        assert(frame_end(log2, marks2, k) == b);
        assert(b <= p) by {
            if k + 1 < marks2.len() {
                assert(frame_ok(lay, log, marks, k + 1));
                lemma_marks_ascend(lay, log, marks, k + 1, marks.len() - 1);
            }
        }
        assert(log2.take(a) =~= log.take(a));
        assert(log2.subrange(a, b) =~= log.subrange(a, b));
    }
    assert forall|k: int| 0 <= k < marks2.len() implies headers(log2, marks2)[k] == headers(
        log,
        marks,
    )[k] by {
        assert(frame_ok(lay, log, marks, k));
        lemma_marks_ascend(lay, log, marks, k, marks.len() - 1);
    }
    assert(headers(log2, marks2) =~= headers(log, marks).drop_last());
}

/// Later coverings stand later in the log.
pub proof fn lemma_marks_ascend(lay: Layout, log: Seq<int>, marks: Seq<int>, j: int, k: int)
    requires
        trail_ok(lay, log, marks),
        0 <= j <= k < marks.len(),
    ensures
        marks[j] <= marks[k],
        j < k ==> marks[j] < marks[k],
    decreases k - j,
{
    if j < k {
        assert(frame_ok(lay, log, marks, j));
        lemma_marks_ascend(lay, log, marks, j + 1, k);
    }
}

/// A node of a row belongs to the row that owns the first one.
pub proof fn lemma_owner_same(lay: Layout, owner: Seq<int>, pb: Incidence, x: int, y: int)
    requires
        lay.ok(),
        arena_ok(lay, owner, pb),
        lay.n < x < lay.total(),
        lay.in_row(x, y),
    ensures
        lay.n < y < lay.total(),
        owner[y] == owner[x],
        0 <= owner[x] < pb.rows.len(),
        0 <= y - lay.row[x] < pb.rows[owner[x]].len(),
        lay.col[y] == pb.rows[owner[x]][y - lay.row[x]] + 1,
        pb.hits(owner[x], lay.col[y] - 1),
{
    lemma_same_row(lay, x, y);
    let r = owner[x];
    let s = owner[y];
    assert(pb.row_ok(pb.rows[r]));
    assert(pb.row_ok(pb.rows[s]));
    if r < s {
        pb.lemma_first_node_ascends(r, s);
    } else if s < r {
        pb.lemma_first_node_ascends(s, r);
    }
    assert(pb.rows[r][y - lay.row[x]] == lay.col[y] - 1);
}

/// The node that stands for the one of row `r` at place `p`.
pub proof fn lemma_node_at(lay: Layout, owner: Seq<int>, pb: Incidence, r: int, p: int)
    requires
        lay.ok(),
        arena_ok(lay, owner, pb),
        0 <= r < pb.rows.len(),
        0 <= p < pb.rows[r].len(),
    ensures
        lay.n < pb.first_node(r) + p < lay.total(),
        pb.first_node(r) + pb.rows[r].len() <= lay.total(),
        owner[pb.first_node(r) + p] == r,
        lay.row[pb.first_node(r) + p] == pb.first_node(r),
        lay.col[pb.first_node(r) + p] == pb.rows[r][p] + 1,
{
    let y = pb.first_node(r) + p;
    pb.lemma_first_node_ascends(r, pb.rows.len() as int);
    pb.lemma_first_node_ascends(0, r);
    let s = owner[y];
    assert(pb.row_ok(pb.rows[r]));
    assert(pb.row_ok(pb.rows[s]));
    if r < s {
        pb.lemma_first_node_ascends(r, s);
    } else if s < r {
        pb.lemma_first_node_ascends(s, r);
    }
}

/// The linked ones of column `h` are those of the rows that share no
/// column with the selection `path`.
pub open spec fn column_lists(
    lay: Layout,
    owner: Seq<int>,
    pb: Incidence,
    dead: Set<int>,
    path: Seq<int>,
    h: int,
) -> bool {
    forall|x: int|
        lay.n < x < lay.total() && lay.col[x] == h ==> (!#[trigger] dead.contains(x)
            <==> pb.active(path, owner[x]))
}

/// The headers that are taken out are those of the columns that the
/// selection `path` covers.
pub open spec fn covers_match(lay: Layout, pb: Incidence, dead: Set<int>, path: Seq<int>) -> bool {
    forall|c: int| 0 <= c < lay.n ==> (dead.contains(c + 1) <==> #[trigger] pb.covered(path, c))
}

/// In a column that is not covered, the linked ones are the candidates.
pub proof fn lemma_lists(
    lay: Layout,
    owner: Seq<int>,
    pb: Incidence,
    dead: Set<int>,
    path: Seq<int>,
    h: int,
)
    requires
        lay.ok(),
        arena_ok(lay, owner, pb),
        sem(lay, dead),
        covers_match(lay, pb, dead, path),
        1 <= h <= lay.n,
        !dead.contains(h),
    ensures
        column_lists(lay, owner, pb, dead, path, h),
{
    assert forall|x: int| lay.n < x < lay.total() && lay.col[x] == h implies (
    !#[trigger] dead.contains(x) <==> pb.active(path, owner[x])) by {
        let r = owner[x];
        assert(lay.in_row(x, x)) by {
            assert(1 <= lay.col[x]);
        }
        lemma_owner_same(lay, owner, pb, x, x);
        if dead.contains(x) {
            assert(row_hit(lay, dead, x));
            let y = choose|y: int| #[trigger] lay.in_row(x, y) && dead.contains(lay.col[y] as int);
            lemma_owner_same(lay, owner, pb, x, y);
            let c = lay.col[y] - 1;
            assert(1 <= lay.col[y] <= lay.n);
            assert(pb.covered(path, c));
            assert(pb.hits(r, c));
        }
        if !pb.active(path, r) {
            let c = choose|c: int| #[trigger] pb.hits(r, c) && pb.covered(path, c);
            let p = choose|p: int| 0 <= p < pb.rows[r].len() && pb.rows[r][p] == c;
            lemma_node_at(lay, owner, pb, r, p);
            let y = pb.first_node(r) + p;
            assert(pb.row_ok(pb.rows[r]));
            assert(lay.in_row(x, y));
            assert(dead.contains(lay.col[y] as int));
            assert(row_hit(lay, dead, x));
        }
    }
}

/// The size of a column in the links is its number of candidates.
pub proof fn lemma_size_matches(
    lay: Layout,
    owner: Seq<int>,
    pb: Incidence,
    dead: Set<int>,
    path: Seq<int>,
    h: int,
    k: int,
)
    requires
        lay.ok(),
        arena_ok(lay, owner, pb),
        column_lists(lay, owner, pb, dead, path, h),
        1 <= h <= lay.n,
        0 <= k <= pb.rows.len(),
    ensures
        count_in(vmem(lay, dead, h), lay.n + 1, pb.first_node(k)) == pb.size_upto(path, h - 1, k),
    decreases k,
{
    let p = vmem(lay, dead, h);
    let c = h - 1;
    if k > 0 {
        let r = k - 1;
        lemma_size_matches(lay, owner, pb, dead, path, h, r);
        let a = pb.first_node(r);
        let b = pb.first_node(k);
        pb.lemma_first_node_ascends(0, r);
        pb.lemma_first_node_ascends(r, k);
        pb.lemma_first_node_ascends(k, pb.rows.len() as int);
        assert(pb.row_ok(pb.rows[r]));
        lemma_count_split(p, lay.n + 1, a, b);
        lemma_node_at(lay, owner, pb, r, 0);
        if pb.hits(r, c) {
            let q = choose|q: int| 0 <= q < pb.rows[r].len() && pb.rows[r][q] == c;
            lemma_node_at(lay, owner, pb, r, q);
            let y = a + q;
            assert forall|m: int| a <= m < b && m != y implies !#[trigger] p(m) by {
                lemma_node_at(lay, owner, pb, r, m - a);
                assert(pb.rows[r][m - a] != pb.rows[r][q]);
            }
            lemma_count_few(p, a, b, y);
            assert(p(y) <==> pb.active(path, r));
        } else {
            assert forall|m: int| a <= m < b implies !#[trigger] p(m) by {
                lemma_node_at(lay, owner, pb, r, m - a);
                assert(pb.rows[r][m - a] == lay.col[m] - 1);
            }
            lemma_count_few(p, a, b, a);
        }
    } else {
        assert(pb.first_node(0) == lay.n + 1);
    }
}

/// Between two nodes of a column with no linked one of the column from
/// `a` up to `b`, no row that starts at or after `a` and ends before `b`
/// is a candidate.
pub proof fn lemma_no_candidate(
    lay: Layout,
    owner: Seq<int>,
    pb: Incidence,
    dead: Set<int>,
    path: Seq<int>,
    h: int,
    a: int,
    b: int,
    r: int,
)
    requires
        lay.ok(),
        arena_ok(lay, owner, pb),
        column_lists(lay, owner, pb, dead, path, h),
        1 <= h <= lay.n,
        forall|m: int| a <= m < b ==> !#[trigger] vmem(lay, dead, h)(m),
        0 <= r < pb.rows.len(),
        a <= pb.first_node(r),
        pb.first_node(r) + pb.rows[r].len() <= b,
    ensures
        !pb.candidate(path, h - 1, r),
{
    if pb.candidate(path, h - 1, r) {
        let q = choose|q: int| 0 <= q < pb.rows[r].len() && pb.rows[r][q] == h - 1;
        lemma_node_at(lay, owner, pb, r, q);
        let y = pb.first_node(r) + q;
        assert(!dead.contains(y));
        assert(vmem(lay, dead, h)(y));
    }
}

/// The row of node `s` has, besides `s`, a one in the column with header `k`.
pub open spec fn row_has(lay: Layout, s: int, k: int) -> bool {
    exists|y: int| #[trigger] lay.in_row(s, y) && y != s && lay.col[y] == k
}

/// The selection `path`, made by the nodes `sel`, and the coverings that
/// are in force belong together: each selected node stands in the column
/// that was chosen at its depth; the coverings are, for each depth in
/// turn, that of the chosen column and those of the other columns of the
/// selected row; and when the chosen column had been covered, its linked
/// ones were the candidates.
pub open spec fn levels_ok(
    lay: Layout,
    owner: Seq<int>,
    pb: Incidence,
    log: Seq<int>,
    marks: Seq<int>,
    sel: Seq<usize>,
    path: Seq<int>,
) -> bool
    decreases sel.len(),
{
    if sel.len() == 0 {
        marks.len() == 0 && log.len() == 0 && path.len() == 0
    } else {
        let s = sel.last() as int;
        let m = lay.others(s).len() as int;
        let f = marks.len() - m - 1;
        let q = path.drop_last();
        &&& path.len() == sel.len()
        &&& lay.n < s < lay.total()
        &&& f >= 0
        &&& owner[s] == path.last()
        &&& lay.col[s] == pb.chosen(q) + 1
        &&& forall|t: int|
            -1 <= t < m ==> log[marks[f + 1 + t]] == lay.col[#[trigger] lay.other(s, t)]
        &&& column_lists(
            lay,
            owner,
            pb,
            dead_of(log.take(frame_end(log, marks, f))),
            q,
            lay.col[s] as int,
        )
        &&& !log.take(frame_end(log, marks, f)).contains(s)
        &&& covers_match(lay, pb, dead_of(log.take(marks[f])), q)
        &&& levels_ok(lay, owner, pb, log.take(marks[f]), marks.take(f), sel.drop_last(), q)
    }
}

/// A further depth: the chosen column was covered, node `s` of it was
/// selected, and the other columns of its row were covered.
pub proof fn lemma_level_push(
    lay: Layout,
    owner: Seq<int>,
    pb: Incidence,
    log0: Seq<int>,
    marks0: Seq<int>,
    log1: Seq<int>,
    log2: Seq<int>,
    marks2: Seq<int>,
    sel: Seq<usize>,
    path: Seq<int>,
    s: usize,
)
    requires
        lay.ok(),
        levels_ok(lay, owner, pb, log0, marks0, sel, path),
        sel.len() == path.len(),
        covers_match(lay, pb, dead_of(log0), path),
        lay.n < s < lay.total(),
        lay.col[s as int] == pb.chosen(path) + 1,
        log0.len() < log1.len() <= log2.len(),
        log1.take(log0.len() as int) == log0,
        log1[log0.len() as int] == lay.col[s as int],
        log2.take(log1.len() as int) == log1,
        column_lists(lay, owner, pb, dead_of(log1), path, lay.col[s as int] as int),
        !log1.contains(s as int),
        marks2.len() == marks0.len() + 1 + lay.others(s as int).len(),
        marks2.take(marks0.len() as int) == marks0,
        marks2[marks0.len() as int] == log0.len(),
        lay.others(s as int).len() > 0 ==> marks2[marks0.len() as int + 1] == log1.len(),
        lay.others(s as int).len() == 0 ==> log2 == log1,
        forall|t: int|
            0 <= t < lay.others(s as int).len() ==> log2[marks2[marks0.len() as int + 1 + t]]
                == lay.col[#[trigger] lay.other(s as int, t)],
    ensures
        levels_ok(lay, owner, pb, log2, marks2, sel.push(s), path.push(owner[s as int])),
{
    let sel2 = sel.push(s);
    let path2 = path.push(owner[s as int]);
    let m = lay.others(s as int).len() as int;
    let f = marks2.len() - m - 1;
    assert(f == marks0.len());
    assert(sel2.drop_last() =~= sel);
    assert(path2.drop_last() =~= path);
    assert(marks2.take(f) =~= marks0);
    assert(log2.take(marks2[f]) =~= log0) by {
        assert(log2.take(log0.len() as int) =~= log1.take(log0.len() as int));
    }
    assert(log2.take(frame_end(log2, marks2, f)) =~= log1);
    assert(1 <= lay.col[s as int]);
    assert forall|t: int| -1 <= t < m implies log2[marks2[f + 1 + t]] == lay.col[
    #[trigger] lay.other(s as int, t)] by {
        if t == -1 {
            assert(log2[log0.len() as int] == log1[log0.len() as int]);
        }
    }
}

/// Once a row is selected and all its columns are covered, the headers
/// that are taken out are again those of the covered columns.
pub proof fn lemma_covers_push(
    lay: Layout,
    owner: Seq<int>,
    pb: Incidence,
    dead0: Set<int>,
    dead2: Set<int>,
    path: Seq<int>,
    s: int,
)
    requires
        lay.ok(),
        arena_ok(lay, owner, pb),
        covers_match(lay, pb, dead0, path),
        lay.n < s < lay.total(),
        forall|k: int|
            1 <= k <= lay.n ==> (#[trigger] dead2.contains(k) <==> dead0.contains(k) || k
                == lay.col[s] || row_has(lay, s, k)),
    ensures
        covers_match(lay, pb, dead2, path.push(owner[s])),
{
    let r = owner[s];
    assert(1 <= lay.col[s]);
    assert(lay.in_row(s, s));
    lemma_owner_same(lay, owner, pb, s, s);
    assert forall|c: int| 0 <= c < lay.n implies (dead2.contains(c + 1) <==> #[trigger] pb.covered(
        path.push(r),
        c,
    )) by {
        pb.lemma_covered_push(path, r, c);
        assert(dead0.contains(c + 1) <==> pb.covered(path, c));
        if pb.hits(r, c) {
            let p = choose|p: int| 0 <= p < pb.rows[r].len() && pb.rows[r][p] == c;
            lemma_node_at(lay, owner, pb, r, p);
            let y = pb.first_node(r) + p;
            assert(pb.row_ok(pb.rows[r]));
            assert(lay.in_row(s, y));
            if y != s {
                assert(row_has(lay, s, c + 1));
            }
        }
        if row_has(lay, s, c + 1) {
            let y = choose|y: int| #[trigger] lay.in_row(s, y) && y != s && lay.col[y] == c + 1;
            lemma_owner_same(lay, owner, pb, s, y);
        }
    }
}

/// The other columns of the row of a candidate are not covered.
pub proof fn lemma_candidate_open(
    lay: Layout,
    owner: Seq<int>,
    pb: Incidence,
    dead: Set<int>,
    path: Seq<int>,
    s: int,
    y: int,
)
    requires
        lay.ok(),
        arena_ok(lay, owner, pb),
        covers_match(lay, pb, dead, path),
        lay.n < s < lay.total(),
        pb.active(path, owner[s]),
        lay.in_row(s, y),
    ensures
        1 <= lay.col[y] <= lay.n,
        !dead.contains(lay.col[y] as int),
{
    lemma_owner_same(lay, owner, pb, s, y);
    let c = lay.col[y] - 1;
    assert(1 <= lay.col[y]);
    assert(pb.hits(owner[s], c));
    assert(!pb.covered(path, c));
}

/// One of the first `t` other nodes of the row of `s` stands in the column
/// with header `k`.
pub open spec fn among_others(lay: Layout, s: int, t: int, k: int) -> bool {
    exists|u: int| 0 <= u < t && lay.col[#[trigger] lay.other(s, u)] == k
}

/// One more of the other nodes of the row is taken into account.
pub proof fn lemma_among_step(lay: Layout, s: int, t: int, k: int)
    requires
        0 <= t,
    ensures
        among_others(lay, s, t + 1, k) <==> among_others(lay, s, t, k) || lay.col[lay.other(s, t)]
            == k,
{
    if among_others(lay, s, t, k) {
        let u = choose|u: int| 0 <= u < t && lay.col[#[trigger] lay.other(s, u)] == k;
        assert(0 <= u < t + 1);
    }
    if lay.col[lay.other(s, t)] == k {
        assert(0 <= t < t + 1 && lay.col[lay.other(s, t)] == k);
    }
    if among_others(lay, s, t + 1, k) {
        let u = choose|u: int| 0 <= u < t + 1 && lay.col[#[trigger] lay.other(s, u)] == k;
        if u < t {
            assert(among_others(lay, s, t, k));
        }
    }
}

/// The mark `u` places after place `base`.
pub open spec fn mark_at(marks: Seq<int>, base: int, u: int) -> int {
    marks[base + u]
}

/// The first `t` other columns of the row of node `s` have been covered,
/// one after the other, since the log was `log1` and the marks `marks1`.
pub open spec fn row_covered(
    lay: Layout,
    log1: Seq<int>,
    marks1: Seq<int>,
    log2: Seq<int>,
    marks2: Seq<int>,
    s: int,
    t: int,
) -> bool {
    &&& log1.len() <= log2.len()
    &&& log2.take(log1.len() as int) == log1
    &&& marks2.len() == marks1.len() + t
    &&& marks2.take(marks1.len() as int) == marks1
    &&& t > 0 ==> marks2[marks1.len() as int] == log1.len()
    &&& t == 0 ==> log2 == log1
    &&& forall|u: int|
        0 <= u < t ==> {
            let p = #[trigger] mark_at(marks2, marks1.len() as int, u);
            &&& log1.len() <= p
            &&& p < log2.len()
            &&& log2[p] == lay.col[lay.other(s, u)]
        }
    &&& forall|k: int|
        1 <= k <= lay.n ==> (#[trigger] log2.contains(k) <==> log1.contains(k) || among_others(
            lay,
            s,
            t,
            k,
        ))
}

/// The column that is due next in the row is not covered yet.
pub proof fn lemma_row_next_open(
    lay: Layout,
    l: Links,
    log1: Seq<int>,
    log: Seq<int>,
    s: int,
    t: int,
)
    requires
        lay.ok(),
        rows_ok(l, lay),
        lay.n < s < lay.total(),
        0 <= t < lay.others(s).len(),
        forall|k: int|
            1 <= k <= lay.n ==> (#[trigger] log.contains(k) <==> log1.contains(k) || among_others(
                lay,
                s,
                t,
                k,
            )),
        !log1.contains(lay.col[lay.other(s, t)] as int),
    ensures
        1 <= lay.col[lay.other(s, t)] <= lay.n,
        !log.contains(lay.col[lay.other(s, t)] as int),
{
    let j = lay.other(s, t);
    let h = lay.col[j] as int;
    crate::links::lemma_other_at(lay, l, s, t);
    assert(1 <= lay.col[j]);
    if among_others(lay, s, t, h) {
        let u = choose|u: int| 0 <= u < t && lay.col[#[trigger] lay.other(s, u)] == h;
        lay.lemma_others(l, s);
        lemma_same_row(lay, s, lay.other(s, u));
        assert(lay.in_row(lay.other(s, u), j));
    }
}

/// One more column of the row is covered.
pub proof fn lemma_row_cover_step(
    lay: Layout,
    log1: Seq<int>,
    marks1: Seq<int>,
    log: Seq<int>,
    marks: Seq<int>,
    s: int,
    t: int,
)
    requires
        lay.ok(),
        0 <= t,
        1 <= lay.col[lay.other(s, t)] <= lay.n,
        row_covered(lay, log1, marks1, log, marks, s, t),
    ensures
        row_covered(
            lay,
            log1,
            marks1,
            log + cover_trace(lay, dead_of(log), lay.col[lay.other(s, t)] as int),
            marks.push(log.len() as int),
            s,
            t + 1,
        ),
{
    let j = lay.other(s, t);
    let h = lay.col[j] as int;
    let tr = cover_trace(lay, dead_of(log), h);
    let log2 = log + tr;
    let marks2 = marks.push(log.len() as int);
    assert(tr[0] == h);
    assert(log2.take(log1.len() as int) =~= log.take(log1.len() as int));
    assert(marks2.take(marks1.len() as int) =~= marks.take(marks1.len() as int));
    assert forall|u: int| 0 <= u < t + 1 implies ({
        let p = #[trigger] mark_at(marks2, marks1.len() as int, u);
        &&& log1.len() <= p
        &&& p < log2.len()
        &&& log2[p] == lay.col[lay.other(s, u)]
    }) by {
        if u < t {
            let p = mark_at(marks, marks1.len() as int, u);
            assert(mark_at(marks2, marks1.len() as int, u) == p);
            assert(log2[p] == log[p]);
        } else {
            assert(mark_at(marks2, marks1.len() as int, u) == log.len());
            assert(log2[log.len() as int] == tr[0]);
        }
    }
    assert forall|k: int| 1 <= k <= lay.n implies (#[trigger] log2.contains(k) <==> log1.contains(k)
        || among_others(lay, s, t + 1, k)) by {
        lemma_cover_headers(lay, log, h, k);
        lemma_among_step(lay, s, t, k);
    }
    if t > 0 {
        assert(marks2[marks1.len() as int] == marks[marks1.len() as int]);
    }
}

/// When every other column of the row is covered, the headers that were
/// taken out in addition are those of the other columns of the row.
pub proof fn lemma_row_covered_all(
    lay: Layout,
    l: Links,
    log1: Seq<int>,
    marks1: Seq<int>,
    log2: Seq<int>,
    marks2: Seq<int>,
    s: int,
)
    requires
        lay.ok(),
        rows_ok(l, lay),
        lay.n < s < lay.total(),
        row_covered(lay, log1, marks1, log2, marks2, s, lay.others(s).len() as int),
    ensures
        forall|k: int|
            1 <= k <= lay.n ==> (#[trigger] log2.contains(k) <==> log1.contains(k) || row_has(
                lay,
                s,
                k,
            )),
{
    let m = lay.others(s).len() as int;
    lay.lemma_others(l, s);
    assert forall|k: int| 1 <= k <= lay.n implies (#[trigger] log2.contains(k) <==> log1.contains(k)
        || row_has(lay, s, k)) by {
        if among_others(lay, s, m, k) {
            let u = choose|u: int| 0 <= u < m && lay.col[#[trigger] lay.other(s, u)] == k;
            assert(lay.in_row(s, lay.other(s, u)));
            assert(row_has(lay, s, k));
        }
        if row_has(lay, s, k) {
            let y = choose|y: int| #[trigger] lay.in_row(s, y) && y != s && lay.col[y] == k;
            let u = lemma_other_index(lay, s, y);
            assert(lay.col[lay.other(s, u)] == k);
            assert(among_others(lay, s, m, k));
        }
    }
}

/// The step from a node of the chosen column, or from its header, down to
/// the next linked one: that one stands for the next candidate, and the
/// other columns of its row are not covered.
pub proof fn lemma_select(
    lay: Layout,
    owner: Seq<int>,
    pb: Incidence,
    l: Links,
    log0: Seq<int>,
    log1: Seq<int>,
    q: Seq<int>,
    h: int,
    x: int,
)
    requires
        lay.ok(),
        arena_ok(lay, owner, pb),
        in_order(l, lay, dead_of(log1)),
        rows_ok(l, lay),
        1 <= h <= lay.n,
        covers_match(lay, pb, dead_of(log0), q),
        log1 == log0 + cover_trace(lay, dead_of(log0), h),
        column_lists(lay, owner, pb, dead_of(log1), q, h),
        x == h || (lay.n < x < lay.total() && lay.col[x] == h && !log1.contains(x)),
    ensures
        ({
            let s = l.down[x] as int;
            let lo = if x == h { 0 } else { owner[x] + 1 };
            let hi = if s == h { pb.rows.len() as int } else { owner[s] };
            &&& 0 <= lo <= hi <= pb.rows.len()
            &&& forall|k: int| lo <= k < hi ==> !#[trigger] pb.candidate(q, h - 1, k)
            &&& s != h ==> {
                &&& lay.n < s < lay.total()
                &&& lay.col[s] == h
                &&& !log1.contains(s)
                &&& 0 <= owner[s] < pb.rows.len()
                &&& pb.candidate(q, h - 1, owner[s])
                &&& forall|u: int|
                    0 <= u < lay.others(s).len() ==> !log1.contains(
                        lay.col[#[trigger] lay.other(s, u)] as int,
                    )
            }
            &&& s == h ==> l.size[h] == 0 || x != h
        }),
{
    let dead = dead_of(log1);
    let s = l.down[x] as int;
    let lo = if x == h { 0 } else { owner[x] + 1 };
    let hi = if s == h { pb.rows.len() as int } else { owner[s] };
    let a = if x == h { lay.n + 1 } else { x + 1 };
    let b = if s == h { lay.total() } else { s };
    lemma_down(lay, l, dead, h, x);
    if x != h {
        assert(1 <= lay.col[x]);
        assert(lay.in_row(x, x));
        lemma_owner_same(lay, owner, pb, x, x);
    }
    if s != h {
        assert(1 <= lay.col[s]);
        assert(lay.in_row(s, s));
        lemma_owner_same(lay, owner, pb, s, s);
        assert(pb.active(q, owner[s]));
        if x != h {
            // a row below another starts after it
            if owner[s] <= owner[x] {
                if owner[s] < owner[x] {
                    pb.lemma_first_node_ascends(owner[s], owner[x]);
                }
                assert(false);
            }
        }
        assert forall|u: int| 0 <= u < lay.others(s).len() implies !log1.contains(
            lay.col[#[trigger] lay.other(s, u)] as int,
        ) by {
            let y = lay.other(s, u);
            lay.lemma_others(l, s);
            lemma_candidate_open(lay, owner, pb, dead_of(log0), q, s, y);
            lemma_cover_headers(lay, log0, h, lay.col[y] as int);
        }
    } else if x == h {
        lemma_count_few(vmem(lay, dead, h), lay.n + 1, lay.total(), lay.n + 1);
    }
    assert forall|k: int| lo <= k < hi implies !#[trigger] pb.candidate(q, h - 1, k) by {
        assert(pb.row_ok(pb.rows[k]));
        pb.lemma_first_node_ascends(0, k);
        pb.lemma_first_node_ascends(k, pb.rows.len() as int);
        if x != h {
            pb.lemma_first_node_ascends(owner[x] + 1, k);
        }
        if s != h {
            pb.lemma_first_node_ascends(k, owner[s]);
        }
        lemma_no_candidate(lay, owner, pb, dead, q, h, a, b, k);
    }
}

/// With the chosen column covered, node `s` of it selected and the other
/// columns of its row covered, the search stands one depth further down.
pub proof fn lemma_selected(
    lay: Layout,
    owner: Seq<int>,
    pb: Incidence,
    l: Links,
    log0: Seq<int>,
    marks0: Seq<int>,
    log1: Seq<int>,
    log2: Seq<int>,
    marks2: Seq<int>,
    sel: Seq<usize>,
    q: Seq<int>,
    s: usize,
)
    requires
        lay.ok(),
        arena_ok(lay, owner, pb),
        rows_ok(l, lay),
        levels_ok(lay, owner, pb, log0, marks0, sel, q),
        sel.len() == q.len(),
        covers_match(lay, pb, dead_of(log0), q),
        lay.n < s < lay.total(),
        lay.col[s as int] == pb.chosen(q) + 1,
        1 <= lay.col[s as int] <= lay.n,
        log1 == log0 + cover_trace(lay, dead_of(log0), lay.col[s as int] as int),
        column_lists(lay, owner, pb, dead_of(log1), q, lay.col[s as int] as int),
        !log1.contains(s as int),
        row_covered(
            lay,
            log1,
            marks0.push(log0.len() as int),
            log2,
            marks2,
            s as int,
            lay.others(s as int).len() as int,
        ),
    ensures
        levels_ok(lay, owner, pb, log2, marks2, sel.push(s), q.push(owner[s as int])),
        covers_match(lay, pb, dead_of(log2), q.push(owner[s as int])),
{
    let h = lay.col[s as int] as int;
    let m = lay.others(s as int).len() as int;
    let marks1 = marks0.push(log0.len() as int);
    let tr = cover_trace(lay, dead_of(log0), h);
    assert(tr[0] == h);
    assert(log1.take(log0.len() as int) =~= log0);
    assert(marks2.take(marks0.len() as int) =~= marks1.take(marks0.len() as int));
    assert(marks1.take(marks0.len() as int) =~= marks0);
    assert(marks2[marks0.len() as int] == marks2.take(marks1.len() as int)[marks0.len() as int]);
    let base = marks0.len() as int + 1;
    assert forall|t: int| 0 <= t < m implies log2[marks2[base + t]] == lay.col[
    #[trigger] lay.other(s as int, t)] by {
        assert(mark_at(marks2, marks1.len() as int, t) == marks2[marks0.len() as int + 1 + t]);
    }
    if m > 0 {
        assert(mark_at(marks2, marks1.len() as int, 0) == marks2[marks0.len() as int + 1]);
    }
    lemma_level_push(lay, owner, pb, log0, marks0, log1, log2, marks2, sel, q, s);
    lemma_row_covered_all(lay, l, log1, marks1, log2, marks2, s as int);
    let dead0 = dead_of(log0);
    let dead2 = dead_of(log2);
    assert forall|k: int| 1 <= k <= lay.n implies (#[trigger] dead2.contains(k)
        <==> dead0.contains(k) || k == h || row_has(lay, s as int, k)) by {
        lemma_cover_headers(lay, log0, h, k);
    }
    lemma_covers_push(lay, owner, pb, dead_of(log0), dead_of(log2), q, s as int);
}

} // verus!
