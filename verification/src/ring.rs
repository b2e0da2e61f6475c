//! Circular doubly linked lists laid out in an array.
//!
//! A ring has an anchor `z` and members among the indices `lo..hi`; the
//! members that are currently linked are those that a predicate holds of.
//! The links of the anchor and of every linked member point to the nearest
//! linked member in each direction, or to the anchor where there is none.
use vstd::prelude::*;

verus! {

/// The first index in `from..end` of which `p` holds; `dflt` if there is none.
pub open spec fn first_from(p: spec_fn(int) -> bool, from: int, end: int, dflt: int) -> int
    decreases end - from,
{
    if from >= end {
        dflt
    } else if p(from) {
        from
    } else {
        first_from(p, from + 1, end, dflt)
    }
}

/// The last index above `floor` and up to `from` of which `p` holds; `dflt`
/// if there is none.
pub open spec fn last_upto(p: spec_fn(int) -> bool, from: int, floor: int, dflt: int) -> int
    decreases from - floor,
{
    if from <= floor {
        dflt
    } else if p(from) {
        from
    } else {
        last_upto(p, from - 1, floor, dflt)
    }
}

/// The number of indices in `from..end` of which `p` holds.
pub open spec fn count_in(p: spec_fn(int) -> bool, from: int, end: int) -> int
    decreases end - from,
{
    if from >= end {
        0
    } else {
        count_in(p, from, end - 1) + if p(end - 1) {
            1int
        } else {
            0int
        }
    }
}

/// What `first_from` finds is the first index of which `p` holds, and it
/// finds none only where there is none.
pub proof fn lemma_first_from(p: spec_fn(int) -> bool, from: int, end: int, dflt: int)
    ensures
        ({
            let r = first_from(p, from, end, dflt);
            ||| (r == dflt && forall|m: int| from <= m < end ==> !#[trigger] p(m))
            ||| (from <= r < end && p(r) && forall|m: int| from <= m < r ==> !#[trigger] p(m))
        }),
    decreases end - from,
{
    if from < end && !p(from) {
        lemma_first_from(p, from + 1, end, dflt);
    }
}

/// The first index of which `p` holds is what `first_from` finds.
pub proof fn lemma_first_is(p: spec_fn(int) -> bool, from: int, end: int, dflt: int, m: int)
    requires
        from <= m < end,
        p(m),
        forall|k: int| from <= k < m ==> !#[trigger] p(k),
    ensures
        first_from(p, from, end, dflt) == m,
    decreases end - from,
{
    if from < m {
        lemma_first_is(p, from + 1, end, dflt, m);
    }
}

/// Where `p` holds of no index, `first_from` finds none.
pub proof fn lemma_first_none(p: spec_fn(int) -> bool, from: int, end: int, dflt: int)
    requires
        forall|k: int| from <= k < end ==> !#[trigger] p(k),
    ensures
        first_from(p, from, end, dflt) == dflt,
    decreases end - from,
{
    if from < end {
        lemma_first_none(p, from + 1, end, dflt);
    }
}

/// What `last_upto` finds is the last index of which `p` holds, and it
/// finds none only where there is none.
pub proof fn lemma_last_upto(p: spec_fn(int) -> bool, from: int, floor: int, dflt: int)
    ensures
        ({
            let r = last_upto(p, from, floor, dflt);
            ||| (r == dflt && forall|m: int| floor < m <= from ==> !#[trigger] p(m))
            ||| (floor < r <= from && p(r) && forall|m: int| r < m <= from ==> !#[trigger] p(m))
        }),
    decreases from - floor,
{
    if from > floor && !p(from) {
        lemma_last_upto(p, from - 1, floor, dflt);
    }
}

/// The last index of which `p` holds is what `last_upto` finds.
pub proof fn lemma_last_is(p: spec_fn(int) -> bool, from: int, floor: int, dflt: int, m: int)
    requires
        floor < m <= from,
        p(m),
        forall|k: int| m < k <= from ==> !#[trigger] p(k),
    ensures
        last_upto(p, from, floor, dflt) == m,
    decreases from - floor,
{
    if m < from {
        lemma_last_is(p, from - 1, floor, dflt, m);
    }
}

/// Where `p` holds of no index, `last_upto` finds none.
pub proof fn lemma_last_none(p: spec_fn(int) -> bool, from: int, floor: int, dflt: int)
    requires
        forall|k: int| floor < k <= from ==> !#[trigger] p(k),
    ensures
        last_upto(p, from, floor, dflt) == dflt,
    decreases from - floor,
{
    if from > floor {
        lemma_last_none(p, from - 1, floor, dflt);
    }
}

/// Predicates that agree on a range are found at the same place in it.
pub proof fn lemma_first_same(
    p: spec_fn(int) -> bool,
    q: spec_fn(int) -> bool,
    from: int,
    end: int,
    dflt: int,
)
    requires
        forall|k: int| #![trigger p(k)] #![trigger q(k)] from <= k < end ==> p(k) == q(k),
    ensures
        first_from(p, from, end, dflt) == first_from(q, from, end, dflt),
    decreases end - from,
{
    if from < end {
        lemma_first_same(p, q, from + 1, end, dflt);
    }
}

/// Predicates that agree on a range are found last at the same place in it.
pub proof fn lemma_last_same(
    p: spec_fn(int) -> bool,
    q: spec_fn(int) -> bool,
    from: int,
    floor: int,
    dflt: int,
)
    requires
        forall|k: int| #![trigger p(k)] #![trigger q(k)] floor < k <= from ==> p(k) == q(k),
    ensures
        last_upto(p, from, floor, dflt) == last_upto(q, from, floor, dflt),
    decreases from - floor,
{
    if from > floor {
        lemma_last_same(p, q, from - 1, floor, dflt);
    }
}

/// Predicates that agree on a range count the same in it.
pub proof fn lemma_count_same(p: spec_fn(int) -> bool, q: spec_fn(int) -> bool, from: int, end: int)
    requires
        forall|k: int| #![trigger p(k)] #![trigger q(k)] from <= k < end ==> p(k) == q(k),
    ensures
        count_in(p, from, end) == count_in(q, from, end),
    decreases end - from,
{
    if from < end {
        lemma_count_same(p, q, from, end - 1);
    }
}

/// Where `q` differs from `p` only in that it leaves out `j`, it counts one
/// less.
pub proof fn lemma_count_less_one(
    p: spec_fn(int) -> bool,
    q: spec_fn(int) -> bool,
    from: int,
    end: int,
    j: int,
)
    requires
        p(j),
        !q(j),
        forall|k: int| #![trigger p(k)] #![trigger q(k)] from <= k < end && k != j ==> p(k) == q(k),
    ensures
        0 <= count_in(q, from, end) <= count_in(p, from, end) <= end - from || from >= end,
        from <= j < end ==> count_in(q, from, end) == count_in(p, from, end) - 1,
        !(from <= j < end) ==> count_in(q, from, end) == count_in(p, from, end),
    decreases end - from,
{
    if from < end {
        lemma_count_less_one(p, q, from, end - 1, j);
    }
}

/// A count is at least 0 and at most the length of the range, and 0 only
/// where `p` holds of nothing.
pub proof fn lemma_count_bounds(p: spec_fn(int) -> bool, from: int, end: int)
    ensures
        0 <= count_in(p, from, end),
        from <= end ==> count_in(p, from, end) <= end - from,
        count_in(p, from, end) == 0 ==> forall|k: int| from <= k < end ==> !#[trigger] p(k),
    decreases end - from,
{
    if from < end {
        lemma_count_bounds(p, from, end - 1);
    }
}

/// Where the scan starts for the neighbour after `x`.
pub open spec fn after(z: int, lo: int, x: int) -> int {
    if x == z {
        lo
    } else {
        x + 1
    }
}

/// Where the scan starts for the neighbour before `x`.
pub open spec fn before(z: int, hi: int, x: int) -> int {
    if x == z {
        hi - 1
    } else {
        x - 1
    }
}

/// The ring with anchor `z` and the members in `lo..hi` of which `p` holds
/// is linked in index order.
pub open spec fn ring_ok(
    next: Seq<usize>,
    prev: Seq<usize>,
    z: int,
    lo: int,
    hi: int,
    p: spec_fn(int) -> bool,
) -> bool {
    &&& 0 <= z < lo <= hi <= next.len()
    &&& next.len() == prev.len()
    &&& forall|x: int|
        #![trigger next[x]]
        #![trigger prev[x]]
        x == z || (lo <= x < hi && p(x)) ==> next[x] == first_from(p, after(z, lo, x), hi, z)
            && prev[x] == last_upto(p, before(z, hi, x), lo - 1, z)
}

/// Taking the linked member `j` out of its ring: its neighbours are linked
/// to each other, and the ring is then linked in order without `j`.  The
/// links of `j` itself stay as they were, so that it can be put back.
pub proof fn lemma_ring_unlink(
    next: Seq<usize>,
    prev: Seq<usize>,
    z: int,
    lo: int,
    hi: int,
    p: spec_fn(int) -> bool,
    q: spec_fn(int) -> bool,
    j: int,
)
    requires
        ring_ok(next, prev, z, lo, hi, p),
        lo <= j < hi,
        p(j),
        !q(j),
        forall|m: int| #![trigger p(m)] #![trigger q(m)] lo <= m < hi && m != j ==> p(m) == q(m),
    ensures
        ({
            let u = prev[j] as int;
            let d = next[j] as int;
            &&& u == z || (lo <= u < j && p(u))
            &&& d == z || (j < d < hi && p(d))
            &&& next[u] == j
            &&& prev[d] == j
            &&& ring_ok(next.update(u, d as usize), prev.update(d, u as usize), z, lo, hi, q)
        }),
{
    let u = prev[j] as int;
    let d = next[j] as int;
    let next2 = next.update(u, d as usize);
    let prev2 = prev.update(d, u as usize);
    lemma_first_from(p, j + 1, hi, z);
    lemma_last_upto(p, j - 1, lo - 1, z);
    assert(u == z || (lo <= u < j && p(u)));
    assert(d == z || (j < d < hi && p(d)));
    // the neighbours of `j` point to it
    lemma_first_is(p, after(z, lo, u), hi, z, j);
    lemma_last_is(p, before(z, hi, d), lo - 1, z, j);
    assert(next[u] == j);
    assert(prev[d] == j);
    assert forall|x: int|
        #![trigger next2[x]]
        #![trigger prev2[x]]
        x == z || (lo <= x < hi && q(x)) implies next2[x] == first_from(q, after(z, lo, x), hi, z)
        && prev2[x] == last_upto(q, before(z, hi, x), lo - 1, z) by {
        assert(x != j);
        assert(x == z || p(x));
        // forwards
        let s = after(z, lo, x);
        let r = first_from(p, s, hi, z);
        assert(next[x] == r);
        lemma_first_from(p, s, hi, z);
        if j < s {
            lemma_first_same(p, q, s, hi, z);
            assert(x != u);
        } else if r != j {
            assert(r < j);
            lemma_first_is(q, s, hi, z, r);
            assert(x != u);
        } else {
            if x == z {
                lemma_last_none(p, j - 1, lo - 1, z);
            } else {
                lemma_last_is(p, j - 1, lo - 1, z, x);
            }
            assert(x == u);
            if d == z {
                lemma_first_none(q, s, hi, z);
            } else {
                lemma_first_is(q, s, hi, z, d);
            }
        }
        // backwards
        let t = before(z, hi, x);
        let b = last_upto(p, t, lo - 1, z);
        assert(prev[x] == b);
        lemma_last_upto(p, t, lo - 1, z);
        if j > t {
            lemma_last_same(p, q, t, lo - 1, z);
            assert(x != d);
        } else if b != j {
            assert(b > j);
            lemma_last_is(q, t, lo - 1, z, b);
            assert(x != d);
        } else {
            if x == z {
                lemma_first_none(p, j + 1, hi, z);
            } else {
                lemma_first_is(p, j + 1, hi, z, x);
            }
            assert(x == d);
            if u == z {
                lemma_last_none(q, t, lo - 1, z);
            } else {
                lemma_last_is(q, t, lo - 1, z, u);
            }
        }
    }
}

/// A ring stays linked in order where the links of its anchor and of its
/// linked members stay, and the predicate stays on its range.
pub proof fn lemma_ring_frame(
    next: Seq<usize>,
    prev: Seq<usize>,
    next2: Seq<usize>,
    prev2: Seq<usize>,
    z: int,
    lo: int,
    hi: int,
    p: spec_fn(int) -> bool,
    q: spec_fn(int) -> bool,
)
    requires
        ring_ok(next, prev, z, lo, hi, p),
        hi <= next2.len(),
        next2.len() == prev2.len(),
        forall|m: int| #![trigger p(m)] #![trigger q(m)] lo <= m < hi ==> p(m) == q(m),
        forall|x: int|
            #![trigger next2[x]]
            #![trigger prev2[x]]
            x == z || (lo <= x < hi && p(x)) ==> next2[x] == next[x] && prev2[x] == prev[x],
    ensures
        ring_ok(next2, prev2, z, lo, hi, q),
{
    assert forall|x: int|
        #![trigger next2[x]]
        #![trigger prev2[x]]
        x == z || (lo <= x < hi && q(x)) implies next2[x] == first_from(q, after(z, lo, x), hi, z)
        && prev2[x] == last_upto(q, before(z, hi, x), lo - 1, z) by {
        assert(next2[x] == next[x] && prev2[x] == prev[x]);
        lemma_first_same(p, q, after(z, lo, x), hi, z);
        lemma_last_same(p, q, before(z, hi, x), lo - 1, z);
    }
}

/// A new member at the end of the range, linked in as the last of the ring.
pub proof fn lemma_ring_append(
    next: Seq<usize>,
    prev: Seq<usize>,
    z: int,
    lo: int,
    hi: int,
    p: spec_fn(int) -> bool,
    q: spec_fn(int) -> bool,
)
    requires
        ring_ok(next, prev, z, lo, hi, p),
        hi == next.len(),
        hi < usize::MAX,
        q(hi),
        forall|m: int| #![trigger p(m)] #![trigger q(m)] lo <= m < hi ==> p(m) == q(m),
    ensures
        ({
            let u = prev[z];
            &&& u == z || (lo <= u < hi && p(u as int))
            &&& ring_ok(
                next.push(z as usize).update(u as int, hi as usize),
                prev.push(u).update(z, hi as usize),
                z,
                lo,
                hi + 1,
                q,
            )
        }),
{
    let u = prev[z] as int;
    let next2 = next.push(z as usize).update(u, hi as usize);
    let prev2 = prev.push(u as usize).update(z, hi as usize);
    lemma_last_upto(p, hi - 1, lo - 1, z);
    assert(prev[z] == last_upto(p, before(z, hi, z), lo - 1, z));
    assert forall|x: int|
        #![trigger next2[x]]
        #![trigger prev2[x]]
        x == z || (lo <= x < hi + 1 && q(x)) implies next2[x] == first_from(
        q,
        after(z, lo, x),
        hi + 1,
        z,
    ) && prev2[x] == last_upto(q, before(z, hi + 1, x), lo - 1, z) by {
        if x == hi {
            lemma_last_same(p, q, hi - 1, lo - 1, z);
        } else {
            assert(x == z || p(x));
            let s = after(z, lo, x);
            let r = first_from(p, s, hi, z);
            assert(next[x] == r);
            lemma_first_from(p, s, hi, z);
            if r == z {
                if x == z {
                    lemma_last_none(p, hi - 1, lo - 1, z);
                } else {
                    lemma_last_is(p, hi - 1, lo - 1, z, x);
                }
                assert(x == u);
                lemma_first_is(q, s, hi + 1, z, hi);
            } else {
                assert(x != u);
                lemma_first_is(q, s, hi + 1, z, r);
            }
            if x != z {
                assert(prev[x] == last_upto(p, x - 1, lo - 1, z));
                lemma_last_same(p, q, x - 1, lo - 1, z);
            }
        }
    }
}

/// The range grown by an index that is no member of the ring.
pub proof fn lemma_ring_extend(
    next: Seq<usize>,
    prev: Seq<usize>,
    next2: Seq<usize>,
    prev2: Seq<usize>,
    z: int,
    lo: int,
    hi: int,
    p: spec_fn(int) -> bool,
    q: spec_fn(int) -> bool,
)
    requires
        ring_ok(next, prev, z, lo, hi, p),
        hi + 1 <= next2.len(),
        next2.len() == prev2.len(),
        !q(hi),
        forall|m: int| #![trigger p(m)] #![trigger q(m)] lo <= m < hi ==> p(m) == q(m),
        forall|x: int|
            #![trigger next2[x]]
            #![trigger prev2[x]]
            x == z || (lo <= x < hi && p(x)) ==> next2[x] == next[x] && prev2[x] == prev[x],
    ensures
        ring_ok(next2, prev2, z, lo, hi + 1, q),
        count_in(q, lo, hi + 1) == count_in(p, lo, hi),
{
    lemma_count_same(p, q, lo, hi);
    assert forall|x: int|
        #![trigger next2[x]]
        #![trigger prev2[x]]
        x == z || (lo <= x < hi + 1 && q(x)) implies next2[x] == first_from(
        q,
        after(z, lo, x),
        hi + 1,
        z,
    ) && prev2[x] == last_upto(q, before(z, hi + 1, x), lo - 1, z) by {
        assert(x != hi);
        assert(x == z || p(x));
        assert(next2[x] == next[x] && prev2[x] == prev[x]);
        let s = after(z, lo, x);
        let r = first_from(p, s, hi, z);
        lemma_first_from(p, s, hi, z);
        if r == z {
            lemma_first_none(q, s, hi + 1, z);
        } else {
            lemma_first_is(q, s, hi + 1, z, r);
        }
        lemma_last_same(p, q, before(z, hi, x), lo - 1, z);
    }
}

/// A count over a range is the sum of the counts over its two parts.
pub proof fn lemma_count_split(p: spec_fn(int) -> bool, a: int, b: int, c: int)
    requires
        a <= b <= c,
    ensures
        count_in(p, a, c) == count_in(p, a, b) + count_in(p, b, c),
    decreases c - b,
{
    if b < c {
        lemma_count_split(p, a, b, c - 1);
    }
}

/// A range in which `p` holds of nothing counts 0; one in which it holds
/// of `y` alone counts 1.
pub proof fn lemma_count_few(p: spec_fn(int) -> bool, a: int, b: int, y: int)
    requires
        forall|m: int| a <= m < b && m != y ==> !#[trigger] p(m),
    ensures
        count_in(p, a, b) == if a <= y < b && p(y) { 1int } else { 0int },
    decreases b - a,
{
    if a < b {
        lemma_count_few(p, a, b - 1, y);
    }
}

} // verus!
