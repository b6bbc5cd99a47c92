//! Children-by-parent indexing (compressed sparse rows) and the bottom-up
//! size rollup over it, with the counting arguments that justify both.
//!
//! Node `0` is the root. Every other node `c` names a parent `parent[c]`.
//! The children of `p` end up as one contiguous, increasing slice of
//! `order`, starting at `start[p]`; the rollup then folds every node's
//! total into its parent, children before parents.

use vstd::prelude::*;

verus! {

/// Number of nodes `c` with `1 <= c < k` whose parent is `p`.
pub open spec fn count_kids(parent: Seq<u32>, p: int, k: int) -> nat
    decreases k,
{
    if k <= 1 {
        0
    } else {
        count_kids(parent, p, k - 1) + if parent[k - 1] as int == p {
            1nat
        } else {
            0nat
        }
    }
}

/// Where the children of `p` begin in the child order: the number of
/// nodes `1 <= c < k` whose parent is below `p`.
pub open spec fn kids_before(parent: Seq<u32>, p: int, k: int) -> nat
    decreases p,
{
    if p <= 0 {
        0
    } else {
        kids_before(parent, p - 1, k) + count_kids(parent, p - 1, k)
    }
}

/// The position of node `c` in the child order: after every child of an
/// earlier parent and after its own earlier siblings.
pub open spec fn slot(parent: Seq<u32>, c: int, total: int) -> int {
    (kids_before(parent, parent[c] as int, total) + count_kids(parent, parent[c] as int, c)) as int
}

/// Sum of `f` over the elements of `s`.
pub open spec fn sum_over(s: Seq<u32>, f: spec_fn(int) -> int) -> int
    decreases s.len(),
{
    if s.len() == 0 {
        0
    } else {
        sum_over(s.drop_last(), f) + f(s.last() as int)
    }
}

/// Sum of `f(v)` over `0 <= v < hi`.
pub open spec fn range_sum(f: spec_fn(int) -> int, hi: int) -> int
    decreases hi,
{
    if hi <= 0 {
        0
    } else {
        range_sum(f, hi - 1) + f(hi - 1)
    }
}

/// Every node below `total` other than the root has a parent below `total`.
pub open spec fn parents_in_range(parent: Seq<u32>, total: int) -> bool {
    &&& parent.len() == total
    &&& forall|c: int| 1 <= c < total ==> (#[trigger] parent[c]) < total
}

/// `order` lists the children of every node in increasing order, those of
/// `p` in the slice `[start[p], start[p] + len[p])`.
pub open spec fn csr_layout(
    parent: Seq<u32>,
    start: Seq<u32>,
    len: Seq<u32>,
    order: Seq<u32>,
    total: int,
) -> bool {
    &&& parents_in_range(parent, total)
    &&& total <= u32::MAX as int + 1
    &&& start.len() == total
    &&& len.len() == total
    &&& order.len() == total - 1
    &&& forall|p: int|
        0 <= p < total ==> {
            &&& #[trigger] start[p] == kids_before(parent, p, total)
            &&& len[p] == count_kids(parent, p, total)
            &&& start[p] + len[p] <= total - 1
        }
    &&& forall|c: int|
        1 <= c < total ==> #[trigger] order[slot(parent, c, total)] == c
    &&& forall|p: int, j: int|
        #![trigger order[j], kids_before(parent, p, total)]
        0 <= p < total && kids_before(parent, p, total) <= j < kids_before(parent, p, total)
            + count_kids(parent, p, total) ==> {
            &&& 1 <= order[j] < total
            &&& parent[order[j] as int] == p
            &&& j == kids_before(parent, p, total) + count_kids(parent, p, order[j] as int)
        }
}

pub proof fn lemma_count_kids_bound(parent: Seq<u32>, p: int, k: int)
    ensures
        count_kids(parent, p, k) <= if k >= 1 { k - 1 } else { 0 },
    decreases k,
{
    if k > 1 {
        lemma_count_kids_bound(parent, p, k - 1);
    }
}

pub proof fn lemma_count_kids_mono(parent: Seq<u32>, p: int, k1: int, k2: int)
    requires
        k1 <= k2,
    ensures
        count_kids(parent, p, k1) <= count_kids(parent, p, k2),
    decreases k2 - k1,
{
    if k1 < k2 {
        lemma_count_kids_mono(parent, p, k1, k2 - 1);
    }
}

/// A child `c` of `p` is preceded by fewer siblings than a later child.
pub proof fn lemma_count_kids_strict(parent: Seq<u32>, p: int, c1: int, c2: int)
    requires
        1 <= c1 < c2,
        parent[c1] as int == p,
    ensures
        count_kids(parent, p, c1) < count_kids(parent, p, c2),
{
    lemma_count_kids_mono(parent, p, c1 + 1, c2);
}

pub proof fn lemma_kids_before_mono(parent: Seq<u32>, p1: int, p2: int, k: int)
    requires
        0 <= p1 <= p2,
    ensures
        kids_before(parent, p1, k) + (if p1 < p2 { count_kids(parent, p1, k) } else { 0 })
            <= kids_before(parent, p2, k),
    decreases p2 - p1,
{
    if p1 < p2 {
        lemma_kids_before_mono(parent, p1, p2 - 1, k);
    }
}

/// Adding node `k` to the count moves every start past its parent by one.
proof fn lemma_kids_before_step(parent: Seq<u32>, p: int, k: int)
    requires
        1 <= k,
        0 <= p,
    ensures
        kids_before(parent, p, k + 1) == kids_before(parent, p, k) + if (parent[k] as int) < p {
            1nat
        } else {
            0nat
        },
    decreases p,
{
    if p > 0 {
        lemma_kids_before_step(parent, p - 1, k);
    }
}

proof fn lemma_kids_before_base(parent: Seq<u32>, p: int)
    ensures
        kids_before(parent, p, 1) == 0,
    decreases p,
{
    if p > 0 {
        lemma_kids_before_base(parent, p - 1);
    }
}

/// Every node other than the root is counted under exactly one parent.
pub proof fn lemma_kids_before_total(parent: Seq<u32>, total: int, k: int)
    requires
        parents_in_range(parent, total),
        1 <= k <= total,
    ensures
        kids_before(parent, total, k) == k - 1,
    decreases k,
{
    if k == 1 {
        lemma_kids_before_base(parent, total);
    } else {
        lemma_kids_before_total(parent, total, k - 1);
        lemma_kids_before_step(parent, total, k - 1);
    }
}

/// `child_len[p]`: how many nodes name `p` as their parent.
pub fn count_children(parent: &Vec<u32>) -> (child_len: Vec<u32>)
    requires
        1 <= parent@.len() <= u32::MAX as int + 1,
        parents_in_range(parent@, parent@.len() as int),
    ensures
        child_len@.len() == parent@.len(),
        forall|p: int|
            0 <= p < parent@.len() ==> #[trigger] child_len@[p] == count_kids(
                parent@,
                p,
                parent@.len() as int,
            ),
{
    let total = parent.len();
    let mut child_len: Vec<u32> = Vec::new();
    let mut i: usize = 0;
    while i < total
        invariant
            i <= total == parent@.len(),
            child_len@.len() == i,
            forall|p: int| 0 <= p < i ==> #[trigger] child_len@[p] == 0,
        decreases total - i,
    {
        child_len.push(0);
        i = i + 1;
    }
    let mut c: usize = 1;
    while c < total
        invariant
            1 <= c <= total == parent@.len(),
            total <= u32::MAX as int + 1,
            parents_in_range(parent@, total as int),
            child_len@.len() == total,
            forall|p: int|
                0 <= p < total ==> #[trigger] child_len@[p] == count_kids(parent@, p, c as int),
        decreases total - c,
    {
        let p = parent[c] as usize;
        proof {
            lemma_count_kids_bound(parent@, p as int, c as int);
        }
        let cur = child_len[p];
        child_len.set(p, cur + 1);
        c = c + 1;
    }
    child_len
}

/// `start[p]`: the exclusive prefix sum of the child counts.
pub fn child_starts(parent: &Vec<u32>, child_len: &Vec<u32>) -> (start: Vec<u32>)
    requires
        1 <= parent@.len() <= u32::MAX as int + 1,
        parents_in_range(parent@, parent@.len() as int),
        child_len@.len() == parent@.len(),
        forall|p: int|
            0 <= p < parent@.len() ==> #[trigger] child_len@[p] == count_kids(
                parent@,
                p,
                parent@.len() as int,
            ),
    ensures
        start@.len() == parent@.len(),
        forall|p: int|
            0 <= p < parent@.len() ==> #[trigger] start@[p] == kids_before(
                parent@,
                p,
                parent@.len() as int,
            ),
{
    let total = parent.len();
    let ghost t = total as int;
    let mut start: Vec<u32> = Vec::new();
    start.push(0);
    let mut running: u32 = 0;
    let mut i: usize = 1;
    proof {
        lemma_kids_before_total(parent@, t, t);
    }
    while i < total
        invariant
            1 <= i <= total == parent@.len(),
            total <= u32::MAX as int + 1,
            t == total,
            parents_in_range(parent@, t),
            child_len@.len() == total,
            forall|p: int|
                0 <= p < total ==> #[trigger] child_len@[p] == count_kids(parent@, p, t),
            kids_before(parent@, t, t) == t - 1,
            start@.len() == i,
            running == kids_before(parent@, i - 1, t),
            forall|p: int| 0 <= p < i ==> #[trigger] start@[p] == kids_before(parent@, p, t),
        decreases total - i,
    {
        proof {
            lemma_kids_before_mono(parent@, i as int, t, t);
        }
        running = running + child_len[i - 1];
        start.push(running);
        i = i + 1;
    }
    start
}

/// Places every node into its parent's slice of `order`, children in
/// increasing order.
pub fn fill_order(parent: &Vec<u32>, start: &Vec<u32>) -> (order: Vec<u32>)
    requires
        1 <= parent@.len() <= u32::MAX as int + 1,
        parents_in_range(parent@, parent@.len() as int),
        start@.len() == parent@.len(),
        forall|p: int|
            0 <= p < parent@.len() ==> #[trigger] start@[p] == kids_before(
                parent@,
                p,
                parent@.len() as int,
            ),
    ensures
        order@.len() == parent@.len() - 1,
        forall|c: int|
            1 <= c < parent@.len() ==> #[trigger] order@[slot(parent@, c, parent@.len() as int)] == c,
        forall|p: int, j: int|
            #![trigger order@[j], kids_before(parent@, p, parent@.len() as int)]
            0 <= p < parent@.len() && kids_before(parent@, p, parent@.len() as int) <= j
                < kids_before(parent@, p, parent@.len() as int) + count_kids(
                parent@,
                p,
                parent@.len() as int,
            ) ==> {
                &&& 1 <= order@[j] < parent@.len()
                &&& parent@[order@[j] as int] == p
                &&& j == kids_before(parent@, p, parent@.len() as int) + count_kids(
                    parent@,
                    p,
                    order@[j] as int,
                )
            },
{
    let total = parent.len();
    let ghost t = total as int;
    let ghost par = parent@;
    let mut cursor = start.clone();
    let mut order: Vec<u32> = Vec::new();
    let mut z: usize = 1;
    while z < total
        invariant
            1 <= z <= total,
            order@.len() == z - 1,
        decreases total - z,
    {
        order.push(0);
        z = z + 1;
    }
    proof {
        lemma_kids_before_total(par, t, t);
    }
    let mut i: usize = 1;
    while i < total
        invariant
            1 <= i <= total == par.len(),
            t == total,
            par == parent@,
            total <= u32::MAX as int + 1,
            parents_in_range(par, t),
            start@.len() == total,
            forall|p: int| 0 <= p < total ==> #[trigger] start@[p] == kids_before(par, p, t),
            kids_before(par, t, t) == t - 1,
            order@.len() == total - 1,
            cursor@.len() == total,
            forall|p: int|
                0 <= p < total ==> #[trigger] cursor@[p] == kids_before(par, p, t) + count_kids(
                    par,
                    p,
                    i as int,
                ),
            forall|c: int|
                1 <= c < i ==> #[trigger] order@[slot(par, c, t)] == c,
            forall|p: int, j: int|
                #![trigger order@[j], kids_before(par, p, t)]
                0 <= p < total && kids_before(par, p, t) <= j < kids_before(par, p, t)
                    + count_kids(par, p, i as int) ==> {
                    &&& 1 <= order@[j] < i
                    &&& par[order@[j] as int] == p
                    &&& j == kids_before(par, p, t) + count_kids(par, p, order@[j] as int)
                },
        decreases total - i,
    {
        let p = parent[i] as usize;
        let ghost pi = p as int;
        let ghost ii = i as int;
        proof {
            lemma_count_kids_mono(par, pi, ii + 1, t);
            lemma_kids_before_mono(par, pi, t, t);
            if pi + 1 < t {
                lemma_kids_before_mono(par, pi, pi + 1, t);
            }
        }
        let pos = cursor[p] as usize;
        let ghost old_order = order@;
        order.set(pos, i as u32);
        cursor.set(p, cursor[p] + 1);
        proof {
            assert forall|q: int, j: int|
                #![trigger order@[j], kids_before(par, q, t)]
                0 <= q < total && kids_before(par, q, t) <= j < kids_before(par, q, t)
                    + count_kids(par, q, ii + 1) implies {
                &&& 1 <= order@[j] < ii + 1
                &&& par[order@[j] as int] == q
                &&& j == kids_before(par, q, t) + count_kids(par, q, order@[j] as int)
            } by {
                lemma_kids_before_mono(par, q, t, t);
                lemma_count_kids_mono(par, q, ii + 1, t);
                if j == pos {
                    if q < pi {
                        lemma_kids_before_mono(par, q, pi, t);
                    } else if q > pi {
                        lemma_kids_before_mono(par, pi, q, t);
                    }
                } else {
                    assert(old_order[j] == order@[j]);
                }
            }
            assert forall|c: int| 1 <= c < ii + 1 implies #[trigger] order@[slot(par, c, t)] == c by {
                if c < ii {
                    let pc = par[c] as int;
                    let j = slot(par, c, t);
                    lemma_count_kids_strict(par, pc, c, ii);
                    lemma_count_kids_mono(par, pc, c + 1, t);
                    lemma_kids_before_mono(par, pc, t, t);
                    if pc < pi {
                        lemma_kids_before_mono(par, pc, pi, t);
                        lemma_count_kids_mono(par, pc, ii, t);
                    } else if pc > pi {
                        lemma_kids_before_mono(par, pi, pc, t);
                    }
                    assert(j != pos);
                    assert(old_order[j] == c);
                }
            }
        }
        i = i + 1;
    }
    order
}

/// The children of `v`, as laid out by [`fill_order`].
pub open spec fn kids_of(start: Seq<u32>, len: Seq<u32>, order: Seq<u32>, v: int) -> Seq<u32> {
    order.subrange(start[v] as int, start[v] + len[v])
}

/// Sum of `vals[c]` over the elements `c` of `s`.
pub open spec fn sum_vals(s: Seq<u32>, vals: Seq<u64>) -> int
    decreases s.len(),
{
    if s.len() == 0 {
        0
    } else {
        sum_vals(s.drop_last(), vals) + vals[s.last() as int]
    }
}

/// Sum of `vals[v]` over `0 <= v < hi`.
pub open spec fn total_vals(vals: Seq<u64>, hi: int) -> int
    decreases hi,
{
    if hi <= 0 {
        0
    } else {
        total_vals(vals, hi - 1) + vals[hi - 1]
    }
}

pub proof fn lemma_kids_element(
    parent: Seq<u32>,
    start: Seq<u32>,
    len: Seq<u32>,
    order: Seq<u32>,
    total: int,
    v: int,
    k: int,
)
    requires
        csr_layout(parent, start, len, order, total),
        0 <= v < total,
        0 <= k < len[v],
    ensures
        kids_of(start, len, order, v)[k] == order[start[v] + k],
        1 <= kids_of(start, len, order, v)[k] < total,
        parent[kids_of(start, len, order, v)[k] as int] == v,
        k == count_kids(parent, v, kids_of(start, len, order, v)[k] as int),
{
    let j = start[v] + k;
    assert(order[j] == kids_of(start, len, order, v)[k]);
    assert(kids_before(parent, v, total) <= j < kids_before(parent, v, total) + count_kids(
        parent,
        v,
        total,
    ));
}

pub proof fn lemma_kids_contains(
    parent: Seq<u32>,
    start: Seq<u32>,
    len: Seq<u32>,
    order: Seq<u32>,
    total: int,
    c: int,
)
    requires
        csr_layout(parent, start, len, order, total),
        1 <= c < total,
    ensures
        count_kids(parent, parent[c] as int, c) < len[parent[c] as int],
        kids_of(start, len, order, parent[c] as int)[count_kids(parent, parent[c] as int, c) as int]
            == c,
{
    let p = parent[c] as int;
    lemma_count_kids_mono(parent, p, c + 1, total);
    assert(order[slot(parent, c, total)] == c);
    assert(start[p] == kids_before(parent, p, total));
}

/// The children of a node are listed without repetition.
pub proof fn lemma_kids_distinct(
    parent: Seq<u32>,
    start: Seq<u32>,
    len: Seq<u32>,
    order: Seq<u32>,
    total: int,
    v: int,
)
    requires
        csr_layout(parent, start, len, order, total),
        0 <= v < total,
    ensures
        kids_of(start, len, order, v).no_duplicates(),
        kids_of(start, len, order, v).len() == len[v],
{
    let s = kids_of(start, len, order, v);
    assert forall|a: int, b: int| 0 <= a < s.len() && 0 <= b < s.len() && a != b implies s[a]
        != s[b] by {
        lemma_kids_element(parent, start, len, order, total, v, a);
        lemma_kids_element(parent, start, len, order, total, v, b);
    }
}

/// Node `c` is a child of `v` exactly when `v` is its parent.
pub proof fn lemma_kids_membership(
    parent: Seq<u32>,
    start: Seq<u32>,
    len: Seq<u32>,
    order: Seq<u32>,
    total: int,
    v: int,
    c: int,
)
    requires
        csr_layout(parent, start, len, order, total),
        0 <= v < total,
        0 <= c <= u32::MAX,
    ensures
        kids_of(start, len, order, v).contains(c as u32) <==> (1 <= c < total && parent[c] == v),
{
    let s = kids_of(start, len, order, v);
    if s.contains(c as u32) {
        let k = choose|k: int| 0 <= k < s.len() && s[k] == c as u32;
        lemma_kids_element(parent, start, len, order, total, v, k);
    }
    if 1 <= c < total && parent[c] == v {
        lemma_kids_contains(parent, start, len, order, total, c);
        let k = count_kids(parent, v, c) as int;
        assert(s[k] == c as u32);
    }
}

spec fn is_folded(c: int, n: int, lo: int, unlinked_done: bool) -> bool {
    (lo <= c < n) || (unlinked_done && c == n)
}

spec fn folded_sum(s: Seq<u32>, vals: Seq<u64>, n: int, lo: int, ud: bool) -> int
    decreases s.len(),
{
    if s.len() == 0 {
        0
    } else {
        folded_sum(s.drop_last(), vals, n, lo, ud) + if is_folded(s.last() as int, n, lo, ud) {
            vals[s.last() as int] as int
        } else {
            0
        }
    }
}

spec fn open_sum(vals: Seq<u64>, n: int, lo: int, ud: bool, hi: int) -> int
    decreases hi,
{
    if hi <= 0 {
        0
    } else {
        open_sum(vals, n, lo, ud, hi - 1) + if is_folded(hi - 1, n, lo, ud) {
            0
        } else {
            vals[hi - 1] as int
        }
    }
}

proof fn lemma_folded_sum_agree(
    s: Seq<u32>,
    a: Seq<u64>,
    b: Seq<u64>,
    n: int,
    lo: int,
    ud: bool,
)
    requires
        forall|k: int|
            0 <= k < s.len() && is_folded(s[k] as int, n, lo, ud) ==> a[s[k] as int] == b[s[k] as int],
    ensures
        folded_sum(s, a, n, lo, ud) == folded_sum(s, b, n, lo, ud),
    decreases s.len(),
{
    if s.len() > 0 {
        let t = s.drop_last();
        assert forall|k: int|
            0 <= k < t.len() && is_folded(t[k] as int, n, lo, ud) implies a[t[k] as int]
            == b[t[k] as int] by {
            assert(t[k] == s[k]);
        }
        lemma_folded_sum_agree(t, a, b, n, lo, ud);
        assert(is_folded(s.last() as int, n, lo, ud) ==> a[s.last() as int] == b[s.last() as int]) by {
            assert(s.last() == s[s.len() - 1]);
        }
    }
}

/// Marking one more node `x` folded adds its value once, if it is listed.
proof fn lemma_folded_sum_grow(
    s: Seq<u32>,
    vals: Seq<u64>,
    n: int,
    lo: int,
    ud: bool,
    lo2: int,
    ud2: bool,
    x: int,
)
    requires
        s.no_duplicates(),
        !is_folded(x, n, lo, ud),
        forall|c: int| #[trigger] is_folded(c, n, lo2, ud2) <==> (is_folded(c, n, lo, ud) || c == x),
    ensures
        folded_sum(s, vals, n, lo2, ud2) == folded_sum(s, vals, n, lo, ud) + if s.contains(
            x as u32,
        ) && 0 <= x <= u32::MAX {
            vals[x] as int
        } else {
            0
        },
    decreases s.len(),
{
    if s.len() > 0 {
        let t = s.drop_last();
        assert(t.no_duplicates()) by {
            assert forall|a: int, b: int| 0 <= a < t.len() && 0 <= b < t.len() && a != b implies t[a]
                != t[b] by {
                assert(t[a] == s[a] && t[b] == s[b]);
            }
        }
        lemma_folded_sum_grow(t, vals, n, lo, ud, lo2, ud2, x);
        let l = s.last();
        assert(is_folded(l as int, n, lo2, ud2) <==> (is_folded(l as int, n, lo, ud) || l as int == x));
        if s.contains(x as u32) && 0 <= x <= u32::MAX {
            if l as int == x {
                assert(!t.contains(x as u32)) by {
                    if t.contains(x as u32) {
                        let k = choose|k: int| 0 <= k < t.len() && t[k] == x as u32;
                        assert(s[k] == s[s.len() - 1]);
                    }
                }
            } else {
                let k = choose|k: int| 0 <= k < s.len() && s[k] == x as u32;
                assert(k != s.len() - 1);
                assert(t[k] == x as u32);
            }
        } else {
            if t.contains(x as u32) {
                let k = choose|k: int| 0 <= k < t.len() && t[k] == x as u32;
                assert(s[k] == x as u32);
            }
            if l as int == x {
                assert(s[s.len() - 1] == l);
            }
        }
    }
}

proof fn lemma_folded_sum_all(s: Seq<u32>, vals: Seq<u64>, n: int, lo: int, ud: bool)
    requires
        forall|k: int| 0 <= k < s.len() ==> is_folded(#[trigger] s[k] as int, n, lo, ud),
    ensures
        folded_sum(s, vals, n, lo, ud) == sum_vals(s, vals),
    decreases s.len(),
{
    if s.len() > 0 {
        let t = s.drop_last();
        assert forall|k: int| 0 <= k < t.len() implies is_folded(#[trigger] t[k] as int, n, lo, ud) by {
            assert(t[k] == s[k]);
        }
        lemma_folded_sum_all(t, vals, n, lo, ud);
        assert(s.last() == s[s.len() - 1]);
    }
}

proof fn lemma_open_sum_initial(vals: Seq<u64>, n: int, hi: int)
    ensures
        open_sum(vals, n, n, false, hi) == total_vals(vals, hi),
    decreases hi,
{
    if hi > 0 {
        lemma_open_sum_initial(vals, n, hi - 1);
    }
}

/// Moving `a`'s value into `b` and marking `a` folded keeps the open sum.
proof fn lemma_open_sum_move(
    vals: Seq<u64>,
    vals2: Seq<u64>,
    n: int,
    lo: int,
    ud: bool,
    lo2: int,
    ud2: bool,
    a: int,
    b: int,
    hi: int,
)
    requires
        0 <= a < hi,
        0 <= b < hi,
        a != b,
        hi <= vals.len(),
        vals2.len() == vals.len(),
        !is_folded(a, n, lo, ud),
        !is_folded(b, n, lo, ud),
        forall|c: int| #[trigger] is_folded(c, n, lo2, ud2) <==> (is_folded(c, n, lo, ud) || c == a),
        forall|c: int| 0 <= c < vals.len() && c != b ==> #[trigger] vals2[c] == vals[c],
        vals2[b] == vals[b] + vals[a],
    ensures
        open_sum(vals2, n, lo2, ud2, hi) == open_sum(vals, n, lo, ud, hi),
    decreases hi,
{
    lemma_open_sum_partial(vals, vals2, n, lo, ud, lo2, ud2, a, b, hi);
}

proof fn lemma_open_sum_partial(
    vals: Seq<u64>,
    vals2: Seq<u64>,
    n: int,
    lo: int,
    ud: bool,
    lo2: int,
    ud2: bool,
    a: int,
    b: int,
    hi: int,
)
    requires
        0 <= a,
        0 <= b,
        a != b,
        hi <= vals.len(),
        vals2.len() == vals.len(),
        !is_folded(a, n, lo, ud),
        !is_folded(b, n, lo, ud),
        forall|c: int| #[trigger] is_folded(c, n, lo2, ud2) <==> (is_folded(c, n, lo, ud) || c == a),
        forall|c: int| 0 <= c < vals.len() && c != b ==> #[trigger] vals2[c] == vals[c],
        vals2[b] == vals[b] + vals[a],
    ensures
        open_sum(vals2, n, lo2, ud2, hi) == open_sum(vals, n, lo, ud, hi) - (if a < hi {
            vals[a] as int
        } else {
            0
        }) + (if b < hi {
            vals[a] as int
        } else {
            0
        }),
    decreases hi,
{
    if hi > 0 {
        lemma_open_sum_partial(vals, vals2, n, lo, ud, lo2, ud2, a, b, hi - 1);
        let c = hi - 1;
        assert(is_folded(c, n, lo2, ud2) <==> (is_folded(c, n, lo, ud) || c == a));
    }
}

/// Two distinct open entries together are at most the open sum.
proof fn lemma_open_sum_two(vals: Seq<u64>, n: int, lo: int, ud: bool, a: int, b: int, hi: int)
    requires
        0 <= a < hi,
        0 <= b < hi,
        a != b,
        hi <= vals.len(),
        !is_folded(a, n, lo, ud),
        !is_folded(b, n, lo, ud),
    ensures
        vals[a] + vals[b] <= open_sum(vals, n, lo, ud, hi),
    decreases hi,
{
    lemma_open_sum_nonneg(vals, n, lo, ud, hi - 1);
    if a == hi - 1 {
        lemma_open_sum_one(vals, n, lo, ud, b, hi - 1);
    } else if b == hi - 1 {
        lemma_open_sum_one(vals, n, lo, ud, a, hi - 1);
    } else {
        lemma_open_sum_two(vals, n, lo, ud, a, b, hi - 1);
    }
}

proof fn lemma_open_sum_one(vals: Seq<u64>, n: int, lo: int, ud: bool, a: int, hi: int)
    requires
        0 <= a < hi,
        hi <= vals.len(),
        !is_folded(a, n, lo, ud),
    ensures
        vals[a] <= open_sum(vals, n, lo, ud, hi),
    decreases hi,
{
    lemma_open_sum_nonneg(vals, n, lo, ud, hi - 1);
    if a < hi - 1 {
        lemma_open_sum_one(vals, n, lo, ud, a, hi - 1);
    }
}

proof fn lemma_open_sum_nonneg(vals: Seq<u64>, n: int, lo: int, ud: bool, hi: int)
    ensures
        0 <= open_sum(vals, n, lo, ud, hi),
    decreases hi,
{
    if hi > 0 {
        lemma_open_sum_nonneg(vals, n, lo, ud, hi - 1);
    }
}

/// With everything but the root folded, the open sum is the root's value.
proof fn lemma_open_sum_root(vals: Seq<u64>, n: int, ud: bool, hi: int)
    requires
        1 <= hi <= vals.len(),
        1 <= n,
        forall|c: int| 1 <= c < hi ==> #[trigger] is_folded(c, n, 1, ud),
    ensures
        open_sum(vals, n, 1, ud, hi) == vals[0],
    decreases hi,
{
    if hi > 1 {
        lemma_open_sum_root(vals, n, ud, hi - 1);
        assert(is_folded(hi - 1, n, 1, ud));
    } else {
        assert(open_sum(vals, n, 1, ud, 0) == 0);
        assert(!is_folded(0, n, 1, ud));
    }
}

/// The folding order: nodes `n - 1` down to `1`, then (when the tree has
/// one) the `<unlinked>` node `n`, which is the only node whose children
/// have smaller ids than itself.
pub open spec fn fold_order_ok(parent: Seq<u32>, n: int, unlinked: bool) -> bool {
    &&& parent.len() == if unlinked { n + 1 } else { n }
    &&& 1 <= n
    &&& forall|c: int|
        1 <= c < n ==> (#[trigger] parent[c] < c || (unlinked && parent[c] == n))
    &&& unlinked ==> parent[n] == 0
}

/// Folds every node's value into its parent's, children before parents,
/// so that afterwards each value is its own starting value plus the final
/// values of its children, and the root holds the sum of all starting
/// values.
pub fn fold_into_parents(
    vals: &mut Vec<u64>,
    parent: &Vec<u32>,
    start: &Vec<u32>,
    len: &Vec<u32>,
    order: &Vec<u32>,
    n: usize,
    unlinked: bool,
)
    requires
        csr_layout(parent@, start@, len@, order@, parent@.len() as int),
        fold_order_ok(parent@, n as int, unlinked),
        old(vals)@.len() == parent@.len(),
        total_vals(old(vals)@, old(vals)@.len() as int) <= u64::MAX,
    ensures
        final(vals)@.len() == old(vals)@.len(),
        forall|v: int|
            0 <= v < final(vals)@.len() ==> #[trigger] final(vals)@[v] == old(vals)@[v] + sum_vals(
                kids_of(start@, len@, order@, v),
                final(vals)@,
            ),
        final(vals)@[0] == total_vals(old(vals)@, old(vals)@.len() as int),
        forall|v: int|
            0 <= v < final(vals)@.len() ==> #[trigger] final(vals)@[v] <= total_vals(
                old(vals)@,
                old(vals)@.len() as int,
            ),
{
    let ghost own = vals@;
    let ghost total = parent@.len() as int;
    let ghost ni = n as int;
    let ghost par = parent@;
    proof {
        lemma_open_sum_initial(own, ni, total);
        assert forall|v: int| 0 <= v < total implies #[trigger] vals@[v] == own[v] + folded_sum(
            kids_of(start@, len@, order@, v),
            vals@,
            ni,
            ni,
            false,
        ) by {
            lemma_folded_none(kids_of(start@, len@, order@, v), vals@, ni, par, start@, len@, order@, total, v);
        }
        assert forall|v: int| 0 <= v < total implies #[trigger] vals@[v] <= total_vals(own, total) by {
            lemma_total_vals_one(own, v, total);
        }
    }
    let mut lo: usize = n;
    while lo > 1
        invariant
            1 <= lo <= n,
            ni == n,
            total == parent@.len(),
            par == parent@,
            csr_layout(par, start@, len@, order@, total),
            fold_order_ok(par, ni, unlinked),
            vals@.len() == total,
            own.len() == total,
            total_vals(own, total) <= u64::MAX,
            open_sum(vals@, ni, lo as int, false, total) == total_vals(own, total),
            forall|v: int| 0 <= v < total ==> #[trigger] vals@[v] <= total_vals(own, total),
            forall|v: int|
                0 <= v < total ==> #[trigger] vals@[v] == own[v] + folded_sum(
                    kids_of(start@, len@, order@, v),
                    vals@,
                    ni,
                    lo as int,
                    false,
                ),
        decreases lo,
    {
        let i = lo - 1;
        let p = parent[i] as usize;
        let ghost lo2 = i as int;
        proof {
            lemma_open_sum_two(vals@, ni, lo as int, false, i as int, p as int, total);
        }
        let ghost before = vals@;
        let sum = vals[p] + vals[i];
        vals.set(p, sum);
        proof {
            assert forall|c: int| #[trigger] is_folded(c, ni, lo2, false) <==> (is_folded(c, ni, lo as int, false) || c == i) by {}
            lemma_open_sum_move(before, vals@, ni, lo as int, false, lo2, false, i as int, p as int, total);
            fold_step_children(before, vals@, par, start@, len@, order@, total, ni, lo as int, false, lo2, false, i as int, p as int, own);
        }
        lo = i;
    }
    if unlinked {
        let ghost before = vals@;
        proof {
            lemma_open_sum_two(vals@, ni, 1, false, ni, 0, total);
        }
        let sum = vals[0] + vals[n];
        vals.set(0, sum);
        proof {
            assert forall|c: int| #[trigger] is_folded(c, ni, 1, true) <==> (is_folded(c, ni, 1, false) || c == ni) by {}
            lemma_open_sum_move(before, vals@, ni, 1, false, 1, true, ni, 0, total);
            fold_step_children(before, vals@, par, start@, len@, order@, total, ni, 1, false, 1, true, ni, 0, own);
        }
    }
    proof {
        let ud = unlinked;
        assert forall|c: int| 1 <= c < total implies #[trigger] is_folded(c, ni, 1, ud) by {}
        lemma_open_sum_root(vals@, ni, ud, total);
        assert forall|v: int|
            0 <= v < total implies #[trigger] vals@[v] == own[v] + sum_vals(
                kids_of(start@, len@, order@, v),
                vals@,
            ) by {
            let s = kids_of(start@, len@, order@, v);
            assert forall|k: int| 0 <= k < s.len() implies is_folded(#[trigger] s[k] as int, ni, 1, ud) by {
                lemma_kids_element(par, start@, len@, order@, total, v, k);
            }
            lemma_folded_sum_all(s, vals@, ni, 1, ud);
        }
    }
}

/// One entry is at most the total.
pub proof fn lemma_total_vals_one(vals: Seq<u64>, a: int, hi: int)
    requires
        0 <= a < hi <= vals.len(),
    ensures
        vals[a] <= total_vals(vals, hi),
    decreases hi,
{
    lemma_total_vals_nonneg(vals, hi - 1);
    if a < hi - 1 {
        lemma_total_vals_one(vals, a, hi - 1);
    }
}

pub proof fn lemma_total_vals_nonneg(vals: Seq<u64>, hi: int)
    ensures
        0 <= total_vals(vals, hi),
    decreases hi,
{
    if hi > 0 {
        lemma_total_vals_nonneg(vals, hi - 1);
    }
}

/// Totals only depend on the entries they range over.
pub proof fn lemma_total_vals_prefix(a: Seq<u64>, b: Seq<u64>, hi: int)
    requires
        hi <= a.len(),
        hi <= b.len(),
        forall|v: int| 0 <= v < hi ==> #[trigger] a[v] == b[v],
    ensures
        total_vals(a, hi) == total_vals(b, hi),
    decreases hi,
{
    if hi > 0 {
        lemma_total_vals_prefix(a, b, hi - 1);
    }
}

/// Before anything is folded, no child contributes to any sum.
proof fn lemma_folded_none(
    s: Seq<u32>,
    vals: Seq<u64>,
    n: int,
    parent: Seq<u32>,
    start: Seq<u32>,
    len: Seq<u32>,
    order: Seq<u32>,
    total: int,
    v: int,
)
    ensures
        folded_sum(s, vals, n, n, false) == 0,
    decreases s.len(),
{
    if s.len() > 0 {
        lemma_folded_none(s.drop_last(), vals, n, parent, start, len, order, total, v);
    }
}

/// One folding step keeps every node's "own plus folded children" value.
proof fn fold_step_children(
    before: Seq<u64>,
    after: Seq<u64>,
    parent: Seq<u32>,
    start: Seq<u32>,
    len: Seq<u32>,
    order: Seq<u32>,
    total: int,
    n: int,
    lo: int,
    ud: bool,
    lo2: int,
    ud2: bool,
    x: int,
    p: int,
    own: Seq<u64>,
)
    requires
        csr_layout(parent, start, len, order, total),
        1 <= x < total,
        parent[x] == p,
        0 <= p < total,
        p != x,
        !is_folded(x, n, lo, ud),
        !is_folded(p, n, lo, ud),
        forall|c: int| #[trigger] is_folded(c, n, lo2, ud2) <==> (is_folded(c, n, lo, ud) || c == x),
        before.len() == total,
        after.len() == total,
        own.len() == total,
        forall|c: int| 0 <= c < total && c != p ==> #[trigger] after[c] == before[c],
        after[p] == before[p] + before[x],
        forall|v: int|
            0 <= v < total ==> #[trigger] before[v] == own[v] + folded_sum(
                kids_of(start, len, order, v),
                before,
                n,
                lo,
                ud,
            ),
    ensures
        forall|v: int|
            0 <= v < total ==> #[trigger] after[v] == own[v] + folded_sum(
                kids_of(start, len, order, v),
                after,
                n,
                lo2,
                ud2,
            ),
{
    assert forall|v: int|
        0 <= v < total implies #[trigger] after[v] == own[v] + folded_sum(
            kids_of(start, len, order, v),
            after,
            n,
            lo2,
            ud2,
        ) by {
        let s = kids_of(start, len, order, v);
        lemma_kids_distinct(parent, start, len, order, total, v);
        assert forall|k: int|
            0 <= k < s.len() && is_folded(s[k] as int, n, lo2, ud2) implies after[s[k] as int]
            == before[s[k] as int] by {
            lemma_kids_element(parent, start, len, order, total, v, k);
        }
        lemma_folded_sum_agree(s, after, before, n, lo2, ud2);
        lemma_folded_sum_grow(s, before, n, lo, ud, lo2, ud2, x);
        lemma_kids_membership(parent, start, len, order, total, v, x);
        assert(before[v] == own[v] + folded_sum(s, before, n, lo, ud));
    }
}

} // verus!
