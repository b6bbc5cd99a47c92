//! Ordering node ids by a per-node key, largest first.

use vstd::prelude::*;

verus! {

broadcast use vstd::seq_lib::group_to_multiset_ensures;

/// `ids` is ordered by `keys`, largest key first.
pub open spec fn sorted_desc(ids: Seq<u32>, keys: Seq<u64>) -> bool {
    forall|a: int, b: int|
        0 <= a < b < ids.len() ==> keys[ids[a] as int] >= keys[ids[b] as int]
}

proof fn lemma_insert_multiset(s: Seq<u32>, pos: int, x: u32)
    requires
        0 <= pos <= s.len(),
    ensures
        s.insert(pos, x).to_multiset() =~= s.to_multiset().insert(x),
{
    let t = s.insert(pos, x);
    s.insert_ensures(pos, x);
    t.remove_ensures(pos);
    assert(t.remove(pos) =~= s);
    assert(t[pos] == x);
    assert(t.to_multiset().count(x) > 0) by {
        assert(t.contains(x));
    }
}

/// The ids in `ids`, reordered so that their keys never increase. Ids with
/// equal keys keep their relative order.
pub fn sort_ids_desc(ids: &[u32], keys: &Vec<u64>) -> (out: Vec<u32>)
    requires
        forall|k: int| 0 <= k < ids@.len() ==> (#[trigger] ids@[k] as int) < keys@.len(),
    ensures
        out@.to_multiset() == ids@.to_multiset(),
        out@.len() == ids@.len(),
        sorted_desc(out@, keys@),
        forall|k: int| 0 <= k < out@.len() ==> (#[trigger] out@[k] as int) < keys@.len(),
{
    let mut out: Vec<u32> = Vec::new();
    let n = ids.len();
    let mut i: usize = 0;
    while i < n
        invariant
            i <= n == ids@.len(),
            forall|k: int| 0 <= k < ids@.len() ==> (#[trigger] ids@[k] as int) < keys@.len(),
            out@.to_multiset() == ids@.take(i as int).to_multiset(),
            out@.len() == i,
            sorted_desc(out@, keys@),
            forall|k: int| 0 <= k < out@.len() ==> (#[trigger] out@[k] as int) < keys@.len(),
        decreases n - i,
    {
        let x = ids[i];
        let kx = keys[x as usize];
        let mut pos: usize = 0;
        while pos < out.len() && keys[out[pos] as usize] >= kx
            invariant
                pos <= out@.len(),
                forall|k: int| 0 <= k < out@.len() ==> (#[trigger] out@[k] as int) < keys@.len(),
                forall|k: int| 0 <= k < pos ==> keys@[#[trigger] out@[k] as int] >= kx,
            decreases out@.len() - pos,
        {
            pos = pos + 1;
        }
        let ghost before = out@;
        proof {
            assert(pos < out@.len() ==> keys@[out@[pos as int] as int] < kx);
        }
        out.insert(pos, x);
        proof {
            before.insert_ensures(pos as int, x);
            lemma_insert_multiset(before, pos as int, x);
            assert(ids@.take(i as int + 1) =~= ids@.take(i as int).push(x));
            assert forall|a: int, b: int| 0 <= a < b < out@.len() implies keys@[out@[a] as int]
                >= keys@[out@[b] as int] by {
                if b < pos {
                } else if b == pos {
                } else if a < pos {
                    assert(out@[b] == before[b - 1]);
                    if pos < before.len() {
                        assert(keys@[before[pos as int] as int] >= keys@[before[b - 1] as int]);
                    }
                } else if a == pos {
                    assert(out@[b] == before[b - 1]);
                    assert(keys@[before[pos as int] as int] >= keys@[before[b - 1] as int]);
                } else {
                    assert(out@[a] == before[a - 1]);
                    assert(out@[b] == before[b - 1]);
                }
            }
            assert forall|k: int| 0 <= k < out@.len() implies (#[trigger] out@[k] as int)
                < keys@.len() by {
                if k > pos {
                    assert(out@[k] == before[k - 1]);
                }
            }
        }
        i = i + 1;
    }
    proof {
        assert(ids@.take(n as int) =~= ids@);
    }
    out
}


/// Whether `a` comes before `b` in code point order (what `str::cmp`
/// gives, since UTF-8 preserves it): the first differing character
/// decides, and a proper prefix comes first.
pub open spec fn chars_lt(a: Seq<char>, b: Seq<char>) -> bool
    decreases a.len(),
{
    if a.len() == 0 {
        b.len() > 0
    } else if b.len() == 0 {
        false
    } else if a[0] != b[0] {
        (a[0] as u32) < (b[0] as u32)
    } else {
        chars_lt(a.drop_first(), b.drop_first())
    }
}

/// Whether the characters `a` sort before `b`.
pub fn chars_less(a: &[char], b: &[char]) -> (r: bool)
    ensures
        r == chars_lt(a@, b@),
{
    let mut i: usize = 0;
    proof {
        assert(a@.skip(0) =~= a@);
        assert(b@.skip(0) =~= b@);
    }
    while i < a.len() && i < b.len() && a[i] == b[i]
        invariant
            i <= a@.len(),
            i <= b@.len(),
            a@.subrange(0, i as int) == b@.subrange(0, i as int),
            chars_lt(a@, b@) == chars_lt(a@.skip(i as int), b@.skip(i as int)),
        decreases a@.len() - i,
    {
        proof {
            assert(a@.skip(i as int).drop_first() =~= a@.skip(i + 1));
            assert(b@.skip(i as int).drop_first() =~= b@.skip(i + 1));
            assert(a@.subrange(0, i + 1) =~= a@.subrange(0, i as int).push(a@[i as int]));
            assert(b@.subrange(0, i + 1) =~= b@.subrange(0, i as int).push(b@[i as int]));
        }
        i = i + 1;
    }
    proof {
        if i < a.len() {
            assert(a@.skip(i as int)[0] == a@[i as int]);
        }
        if i < b.len() {
            assert(b@.skip(i as int)[0] == b@[i as int]);
        }
    }
    if i == a.len() {
        i < b.len()
    } else if i == b.len() {
        false
    } else {
        (a[i] as u32) < (b[i] as u32)
    }
}

/// How ties on the main key are broken.
#[derive(Clone, Copy, Debug, PartialEq, Eq, Structural)]
pub enum TieBreak {
    /// Keep the input order.
    Stable,
    /// The name that sorts first goes first.
    NameAsc,
    /// The larger secondary key goes first.
    SecondDesc,
}

/// Whether position `x` ranks strictly before position `y`: the larger
/// key first, and on equal keys as `tie` says.
pub open spec fn rank_lt(
    keys: Seq<u64>,
    second: Seq<u64>,
    names: Seq<Seq<char>>,
    tie: TieBreak,
    x: int,
    y: int,
) -> bool {
    keys[x] > keys[y] || (keys[x] == keys[y] && match tie {
        TieBreak::Stable => false,
        TieBreak::NameAsc => chars_lt(names[x], names[y]),
        TieBreak::SecondDesc => second[x] > second[y],
    })
}

/// Where `x` goes in `s`: before the first element it ranks strictly
/// before, so that elements it ties with stay ahead of it.
pub open spec fn insert_pos(
    s: Seq<int>,
    x: int,
    keys: Seq<u64>,
    second: Seq<u64>,
    names: Seq<Seq<char>>,
    tie: TieBreak,
) -> int
    decreases s.len(),
{
    if s.len() == 0 {
        0
    } else if rank_lt(keys, second, names, tie, x, s[0]) {
        0
    } else {
        1 + insert_pos(s.drop_first(), x, keys, second, names, tie)
    }
}

/// The positions `0..n` in ranked order, by stable insertion.
pub open spec fn ranked(
    n: int,
    keys: Seq<u64>,
    second: Seq<u64>,
    names: Seq<Seq<char>>,
    tie: TieBreak,
) -> Seq<int>
    decreases n,
{
    if n <= 0 {
        Seq::empty()
    } else {
        let s = ranked(n - 1, keys, second, names, tie);
        s.insert(insert_pos(s, n - 1, keys, second, names, tie), n - 1)
    }
}

proof fn lemma_insert_pos_bounds(
    s: Seq<int>,
    x: int,
    keys: Seq<u64>,
    second: Seq<u64>,
    names: Seq<Seq<char>>,
    tie: TieBreak,
)
    ensures
        0 <= insert_pos(s, x, keys, second, names, tie) <= s.len(),
    decreases s.len(),
{
    if s.len() > 0 {
        lemma_insert_pos_bounds(s.drop_first(), x, keys, second, names, tie);
    }
}

/// Ranking `0..n` lists each position exactly once.
pub proof fn lemma_ranked_perm(
    n: int,
    keys: Seq<u64>,
    second: Seq<u64>,
    names: Seq<Seq<char>>,
    tie: TieBreak,
)
    requires
        n >= 0,
    ensures
        ranked(n, keys, second, names, tie).len() == n,
        ranked(n, keys, second, names, tie).no_duplicates(),
        forall|k: int|
            0 <= k < n ==> 0 <= #[trigger] ranked(n, keys, second, names, tie)[k] < n,
    decreases n,
{
    if n > 0 {
        lemma_ranked_perm(n - 1, keys, second, names, tie);
        let s = ranked(n - 1, keys, second, names, tie);
        lemma_insert_pos_bounds(s, n - 1, keys, second, names, tie);
        let p = insert_pos(s, n - 1, keys, second, names, tie);
        let r = ranked(n, keys, second, names, tie);
        assert(r == s.insert(p, n - 1));
        assert forall|k: int| 0 <= k < n implies 0 <= #[trigger] r[k] < n && (k != p ==> r[k] < n
            - 1) by {
            if k < p {
                assert(r[k] == s[k]);
            } else if k > p {
                assert(r[k] == s[k - 1]);
            }
        }
        assert forall|i: int, j: int| 0 <= i < r.len() && 0 <= j < r.len() && i != j implies r[i]
            != r[j] by {
            if i != p && j != p {
                let si = if i < p {
                    i
                } else {
                    i - 1
                };
                let sj = if j < p {
                    j
                } else {
                    j - 1
                };
                assert(r[i] == s[si]);
                assert(r[j] == s[sj]);
            }
        }
    }
}

/// The keys of the positions `s` never increase along `s`.
pub open spec fn keys_descend(s: Seq<int>, keys: Seq<u64>) -> bool {
    forall|i: int, j: int| #![trigger s[i], s[j]] 0 <= i < j < s.len() ==> keys[s[i]] >= keys[s[j]]
}

proof fn lemma_insert_pos_keys(
    s: Seq<int>,
    x: int,
    keys: Seq<u64>,
    second: Seq<u64>,
    names: Seq<Seq<char>>,
    tie: TieBreak,
)
    requires
        keys_descend(s, keys),
    ensures
        ({
            let p = insert_pos(s, x, keys, second, names, tie);
            &&& 0 <= p <= s.len()
            &&& forall|i: int| 0 <= i < p ==> keys[#[trigger] s[i]] >= keys[x]
            &&& p < s.len() ==> keys[x] >= keys[s[p]]
        }),
    decreases s.len(),
{
    if s.len() > 0 && !rank_lt(keys, second, names, tie, x, s[0]) {
        let d = s.drop_first();
        assert(keys_descend(d, keys)) by {
            assert forall|i: int, j: int| #![trigger d[i], d[j]] 0 <= i < j < d.len() implies keys[d[i]] >= keys[d[j]] by {
                assert(d[i] == s[i + 1] && d[j] == s[j + 1]);
            }
        }
        lemma_insert_pos_keys(d, x, keys, second, names, tie);
        let p = insert_pos(s, x, keys, second, names, tie);
        assert forall|i: int| 0 <= i < p implies keys[#[trigger] s[i]] >= keys[x] by {
            if i > 0 {
                assert(s[i] == d[i - 1]);
            }
        }
        if p < s.len() {
            assert(s[p] == d[p - 1]);
        }
    }
}

/// Ranking never puts a smaller key before a larger one.
pub proof fn law_ranked_keys_descend(
    n: int,
    keys: Seq<u64>,
    second: Seq<u64>,
    names: Seq<Seq<char>>,
    tie: TieBreak,
)
    requires
        n >= 0,
    ensures
        keys_descend(ranked(n, keys, second, names, tie), keys),
    decreases n,
{
    if n > 0 {
        law_ranked_keys_descend(n - 1, keys, second, names, tie);
        let s = ranked(n - 1, keys, second, names, tie);
        lemma_insert_pos_keys(s, n - 1, keys, second, names, tie);
        let p = insert_pos(s, n - 1, keys, second, names, tie);
        let r = s.insert(p, n - 1);
        assert(r == ranked(n, keys, second, names, tie));
        assert forall|i: int, j: int| #![trigger r[i], r[j]] 0 <= i < j < r.len() implies keys[r[i]] >= keys[r[j]] by {
            if j < p {
                assert(r[i] == s[i] && r[j] == s[j]);
            } else if j == p {
                assert(r[i] == s[i]);
            } else if i < p {
                assert(r[i] == s[i] && r[j] == s[j - 1]);
            } else if i == p {
                assert(r[j] == s[j - 1]);
                assert(keys[s[p]] >= keys[s[j - 1]]);
            } else {
                assert(r[i] == s[i - 1] && r[j] == s[j - 1]);
            }
        }
    }
}

proof fn lemma_chars_lt_trans(a: Seq<char>, b: Seq<char>, c: Seq<char>)
    requires
        chars_lt(a, b),
        chars_lt(b, c),
    ensures
        chars_lt(a, c),
    decreases a.len(),
{
    if a.len() > 0 && b.len() > 0 && c.len() > 0 && a[0] == b[0] && b[0] == c[0] {
        lemma_chars_lt_trans(a.drop_first(), b.drop_first(), c.drop_first());
    }
}

proof fn lemma_chars_lt_asym(a: Seq<char>, b: Seq<char>)
    requires
        chars_lt(a, b),
    ensures
        !chars_lt(b, a),
    decreases a.len(),
{
    if a.len() > 0 && b.len() > 0 && a[0] == b[0] {
        lemma_chars_lt_asym(a.drop_first(), b.drop_first());
    }
}

proof fn lemma_rank_lt_order(
    keys: Seq<u64>,
    second: Seq<u64>,
    names: Seq<Seq<char>>,
    tie: TieBreak,
    x: int,
    y: int,
    z: int,
)
    ensures
        rank_lt(keys, second, names, tie, x, y) ==> !rank_lt(keys, second, names, tie, y, x),
        rank_lt(keys, second, names, tie, x, y) && rank_lt(keys, second, names, tie, y, z)
            ==> rank_lt(keys, second, names, tie, x, z),
{
    if tie == TieBreak::NameAsc {
        if chars_lt(names[x], names[y]) {
            lemma_chars_lt_asym(names[x], names[y]);
        }
        if chars_lt(names[x], names[y]) && chars_lt(names[y], names[z]) {
            lemma_chars_lt_trans(names[x], names[y], names[z]);
        }
    }
}

/// The order `s` never puts a position after one it ranks before.
pub open spec fn rank_ordered(
    s: Seq<int>,
    keys: Seq<u64>,
    second: Seq<u64>,
    names: Seq<Seq<char>>,
    tie: TieBreak,
) -> bool {
    forall|i: int, j: int|
        #![trigger s[i], s[j]]
        0 <= i < j < s.len() ==> !rank_lt(keys, second, names, tie, s[j], s[i])
}

proof fn lemma_insert_pos_rank(
    s: Seq<int>,
    x: int,
    keys: Seq<u64>,
    second: Seq<u64>,
    names: Seq<Seq<char>>,
    tie: TieBreak,
)
    ensures
        ({
            let p = insert_pos(s, x, keys, second, names, tie);
            &&& 0 <= p <= s.len()
            &&& forall|i: int| 0 <= i < p ==> !rank_lt(keys, second, names, tie, x, #[trigger] s[i])
            &&& p < s.len() ==> rank_lt(keys, second, names, tie, x, s[p])
        }),
    decreases s.len(),
{
    if s.len() > 0 && !rank_lt(keys, second, names, tie, x, s[0]) {
        let d = s.drop_first();
        lemma_insert_pos_rank(d, x, keys, second, names, tie);
        let p = insert_pos(s, x, keys, second, names, tie);
        assert forall|i: int| 0 <= i < p implies !rank_lt(keys, second, names, tie, x, #[trigger] s[i]) by {
            if i > 0 {
                assert(s[i] == d[i - 1]);
            }
        }
        if p < s.len() {
            assert(s[p] == d[p - 1]);
        }
    }
}

/// Ranking is a sort: no position comes after one it ranks before. With
/// larger keys first, equal keys fall to the tie-break, and then to the
/// original order.
pub proof fn law_ranked_is_ordered(
    n: int,
    keys: Seq<u64>,
    second: Seq<u64>,
    names: Seq<Seq<char>>,
    tie: TieBreak,
)
    requires
        n >= 0,
    ensures
        rank_ordered(ranked(n, keys, second, names, tie), keys, second, names, tie),
    decreases n,
{
    if n > 0 {
        law_ranked_is_ordered(n - 1, keys, second, names, tie);
        let s = ranked(n - 1, keys, second, names, tie);
        lemma_insert_pos_rank(s, n - 1, keys, second, names, tie);
        let p = insert_pos(s, n - 1, keys, second, names, tie);
        let x = n - 1;
        let r = s.insert(p, x);
        assert(r == ranked(n, keys, second, names, tie));
        assert forall|i: int, j: int| #![trigger r[i], r[j]] 0 <= i < j < r.len() implies !rank_lt(
            keys,
            second,
            names,
            tie,
            r[j],
            r[i],
        ) by {
            if j < p {
                assert(r[i] == s[i] && r[j] == s[j]);
            } else if j == p {
                assert(r[i] == s[i] && r[j] == x);
            } else if i < p {
                assert(r[i] == s[i] && r[j] == s[j - 1]);
            } else if i == p {
                assert(r[i] == x && r[j] == s[j - 1]);
                lemma_rank_lt_order(keys, second, names, tie, x, s[p], x);
                if j - 1 > p {
                    assert(!rank_lt(keys, second, names, tie, s[j - 1], s[p]));
                    lemma_rank_lt_order(keys, second, names, tie, s[j - 1], x, s[p]);
                }
            } else {
                assert(r[i] == s[i - 1] && r[j] == s[j - 1]);
            }
        }
    }
}

/// The positions `0..keys.len()` ranked by [`rank_lt`]: larger keys
/// first, ties broken as `tie` says (and otherwise kept in order).
pub fn rank_positions(
    keys: &[u64],
    second: &[u64],
    names: &Vec<Vec<char>>,
    tie: TieBreak,
) -> (out: Vec<usize>)
    requires
        tie == TieBreak::NameAsc ==> names@.len() == keys@.len(),
        tie == TieBreak::SecondDesc ==> second@.len() == keys@.len(),
    ensures
        out@.len() == keys@.len(),
        forall|k: int| 0 <= k < out@.len() ==> #[trigger] out@[k] < keys@.len(),
        out@.map_values(|p: usize| p as int) == ranked(
            keys@.len() as int,
            keys@,
            second@,
            names@.map_values(|v: Vec<char>| v@),
            tie,
        ),
{
    let ghost nm = names@.map_values(|v: Vec<char>| v@);
    let n = keys.len();
    let mut out: Vec<usize> = Vec::new();
    let mut i: usize = 0;
    while i < n
        invariant
            n == keys@.len(),
            tie == TieBreak::NameAsc ==> names@.len() == n,
            tie == TieBreak::SecondDesc ==> second@.len() == n,
            nm == names@.map_values(|v: Vec<char>| v@),
            i <= n,
            out@.len() == i,
            forall|k: int| 0 <= k < out@.len() ==> #[trigger] out@[k] < i,
            out@.map_values(|p: usize| p as int) == ranked(i as int, keys@, second@, nm, tie),
        decreases n - i,
    {
        let ghost cur = out@.map_values(|p: usize| p as int);
        let mut pos: usize = 0;
        proof {
            assert(cur.skip(0) =~= cur);
        }
        loop
            invariant
                n == keys@.len(),
                tie == TieBreak::NameAsc ==> names@.len() == n,
                tie == TieBreak::SecondDesc ==> second@.len() == n,
                nm == names@.map_values(|v: Vec<char>| v@),
                i < n,
                pos <= out@.len(),
                forall|k: int| 0 <= k < out@.len() ==> #[trigger] out@[k] < i,
                cur == out@.map_values(|p: usize| p as int),
                insert_pos(cur, i as int, keys@, second@, nm, tie) == pos + insert_pos(
                    cur.skip(pos as int),
                    i as int,
                    keys@,
                    second@,
                    nm,
                    tie,
                ),
            ensures
                pos <= out@.len(),
                insert_pos(cur, i as int, keys@, second@, nm, tie) == pos,
            decreases out@.len() - pos,
        {
            if pos >= out.len() {
                proof {
                    assert(cur.skip(pos as int).len() == 0);
                }
                break;
            }
            let o = out[pos];
            let before = keys[i] > keys[o] || (keys[i] == keys[o] && match tie {
                TieBreak::Stable => false,
                TieBreak::NameAsc => chars_less(names[i].as_slice(), names[o].as_slice()),
                TieBreak::SecondDesc => second[i] > second[o],
            });
            proof {
                assert(cur.skip(pos as int)[0] == cur[pos as int]);
                assert(cur.skip(pos as int).drop_first() =~= cur.skip(pos + 1));
                if tie == TieBreak::NameAsc {
                    assert(nm[i as int] == names@[i as int]@);
                    assert(nm[o as int] == names@[o as int]@);
                }
            }
            if before {
                break;
            }
            pos = pos + 1;
        }
        out.insert(pos, i);
        proof {
            assert(out@.map_values(|p: usize| p as int) =~= cur.insert(pos as int, i as int));
            assert forall|k: int| 0 <= k < out@.len() implies #[trigger] out@[k] < i + 1 by {
                if k < pos {
                    assert(out@[k] as int == cur[k]);
                } else if k > pos {
                    assert(out@[k] as int == cur[k - 1]);
                }
            }
        }
        i = i + 1;
    }
    out
}

} // verus!
