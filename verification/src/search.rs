//! Filename search over a scanned tree, scoped to a subtree: substring
//! matching, and `*` wildcard globs such as `*.ext`. A linear scan of the
//! subtree; no index is built or kept.

use vstd::prelude::*;

use crate::text::{chars_contain, chars_of, lowercase_of, occurs_in, to_lowercase};
use crate::tree::{NodeId, Tree};

verus! {

/// Whether the pattern `p` from position `i` matches the text `t` from
/// position `j`: `*` matches any run of characters (none included), every
/// other character matches itself.
pub open spec fn glob_from(p: Seq<char>, t: Seq<char>, i: int, j: int) -> bool
    decreases p.len() - i, t.len() - j,
{
    if i >= p.len() {
        j >= t.len()
    } else if p[i] == '*' {
        glob_from(p, t, i + 1, j) || (j < t.len() && glob_from(p, t, i, j + 1))
    } else {
        j < t.len() && p[i] == t[j] && glob_from(p, t, i + 1, j + 1)
    }
}

/// Whether the whole of `t` matches the whole pattern `p`.
pub open spec fn glob_matches(p: Seq<char>, t: Seq<char>) -> bool {
    glob_from(p, t, 0, 0)
}

/// `p[s..s+len]` holds no `*` and equals `t[x..x+len]`.
spec fn literal_run(p: Seq<char>, t: Seq<char>, s: int, x: int, len: int) -> bool {
    &&& 0 <= s
    &&& 0 <= x
    &&& 0 <= len
    &&& s + len <= p.len()
    &&& x + len <= t.len()
    &&& forall|m: int| 0 <= m < len ==> #[trigger] p[s + m] != '*' && p[s + m] == t[x + m]
}

/// A star that matches from a later text position matches from an
/// earlier one too.
proof fn lemma_star_earlier(p: Seq<char>, t: Seq<char>, i: int, a: int, b: int)
    requires
        0 <= i < p.len(),
        p[i] == '*',
        0 <= a <= b <= t.len(),
        glob_from(p, t, i, b),
    ensures
        glob_from(p, t, i, a),
    decreases b - a,
{
    if a < b {
        lemma_star_earlier(p, t, i, a + 1, b);
    }
}

/// A literal run can be stepped over forwards.
proof fn lemma_literal_forward(p: Seq<char>, t: Seq<char>, s: int, x: int, len: int)
    requires
        literal_run(p, t, s, x, len),
        glob_from(p, t, s + len, x + len),
    ensures
        glob_from(p, t, s, x),
    decreases len,
{
    if len > 0 {
        assert(p[s + 0] != '*' && p[s + 0] == t[x + 0]);
        assert forall|m: int| 0 <= m < len - 1 implies #[trigger] p[(s + 1) + m] != '*' && p[(s
            + 1) + m] == t[(x + 1) + m] by {
            assert(p[s + (m + 1)] != '*' && p[s + (m + 1)] == t[x + (m + 1)]);
        }
        lemma_literal_forward(p, t, s + 1, x + 1, len - 1);
    }
}

/// Matching a pattern that starts with a star-free run consumes exactly
/// that many characters of text.
proof fn lemma_literal_needed(p: Seq<char>, t: Seq<char>, s: int, k: int, len: int)
    requires
        0 <= s,
        0 <= k <= t.len(),
        0 <= len,
        s + len <= p.len(),
        forall|m: int| 0 <= m < len ==> #[trigger] p[s + m] != '*',
        glob_from(p, t, s, k),
    ensures
        k + len <= t.len(),
        glob_from(p, t, s + len, k + len),
    decreases len,
{
    if len > 0 {
        assert(p[s + 0] != '*');
        assert forall|m: int| 0 <= m < len - 1 implies #[trigger] p[(s + 1) + m] != '*' by {
            assert(p[s + (m + 1)] != '*');
        }
        lemma_literal_needed(p, t, s + 1, k + 1, len - 1);
    }
}

/// With the last star at `sp - 1` and the run after it matched from text
/// position `st` up to `ti`, a match of the star from any position at or
/// after `st` leaves `p[pi..]` matching from `ti`, provided that either
/// `p[pi]` is a star or the text is used up.
proof fn lemma_star_absorbs(
    p: Seq<char>,
    t: Seq<char>,
    sp: int,
    st: int,
    pi: int,
    ti: int,
    a: int,
)
    requires
        1 <= sp <= pi <= p.len(),
        p[sp - 1] == '*',
        literal_run(p, t, sp, st, pi - sp),
        ti == st + (pi - sp),
        st <= a <= t.len(),
        (pi < p.len() && p[pi] == '*') || ti == t.len(),
        glob_from(p, t, sp - 1, a),
    ensures
        glob_from(p, t, pi, ti),
    decreases t.len() - a,
{
    if glob_from(p, t, sp, a) {
        lemma_literal_needed(p, t, sp, a, pi - sp);
        if ti < t.len() {
            lemma_star_earlier(p, t, pi, ti, a + (pi - sp));
        }
    } else {
        lemma_star_absorbs(p, t, sp, st, pi, ti, a + 1);
    }
}

/// Wildcard match supporting `*` only, on characters already lowercased
/// by the caller. Two pointers: remember the most recent `*` and the text
/// position it last matched up to, and on a mismatch retry from there one
/// character further, with no recursion.
fn glob_match_chars(p: &[char], t: &[char]) -> (b: bool)
    ensures
        b == glob_matches(p@, t@),
{
    let ghost ps = p@;
    let ghost ts = t@;
    let mut pi: usize = 0;
    let mut ti: usize = 0;
    let mut star: Option<(usize, usize)> = None;
    while ti < t.len()
        invariant
            ps == p@,
            ts == t@,
            pi <= ps.len(),
            ti <= ts.len(),
            match star {
                None => glob_matches(ps, ts) == glob_from(ps, ts, pi as int, ti as int),
                Some((sp, st)) => {
                    &&& 1 <= sp <= pi
                    &&& ps[sp - 1] == '*'
                    &&& st <= ti
                    &&& ti == st + (pi - sp)
                    &&& literal_run(ps, ts, sp as int, st as int, pi - sp)
                    &&& glob_matches(ps, ts) == glob_from(ps, ts, sp - 1, st as int)
                },
            },
        decreases ts.len() - (match star {
            Some((_, st)) => st as int,
            None => 0int,
        }), (ps.len() - pi) + (ts.len() - ti),
    {
        if pi < p.len() && p[pi] == '*' {
            proof {
                if let Some((sp, st)) = star {
                    let sp = sp as int;
                    let st = st as int;
                    if glob_from(ps, ts, sp - 1, st) {
                        lemma_star_absorbs(ps, ts, sp, st, pi as int, ti as int, st);
                    }
                    if glob_from(ps, ts, pi as int, ti as int) {
                        lemma_literal_forward(ps, ts, sp, st, pi - sp);
                    }
                }
                assert(literal_run(ps, ts, pi + 1, ti as int, 0));
            }
            star = Some((pi + 1, ti));
            pi = pi + 1;
        } else if pi < p.len() && p[pi] == t[ti] {
            proof {
                if let Some((sp, st)) = star {
                    let sp = sp as int;
                    let st = st as int;
                    assert forall|m: int| 0 <= m < pi + 1 - sp implies #[trigger] ps[sp + m] != '*'
                        && ps[sp + m] == ts[st + m] by {
                        if m < pi - sp {
                            assert(literal_run(ps, ts, sp, st, pi - sp));
                        }
                    }
                }
            }
            pi = pi + 1;
            ti = ti + 1;
        } else if let Some((sp, st)) = star {
            proof {
                let spi = sp as int;
                let sti = st as int;
                if glob_from(ps, ts, spi, sti) {
                    lemma_literal_needed(ps, ts, spi, sti, pi - spi);
                }
                assert(!glob_from(ps, ts, spi, sti));
                assert(literal_run(ps, ts, spi, sti + 1, 0));
            }
            pi = sp;
            ti = st + 1;
            star = Some((sp, ti));
        } else {
            return false;
        }
    }
    proof {
        if let Some((sp, st)) = star {
            let sp = sp as int;
            let st = st as int;
            if glob_from(ps, ts, sp - 1, st) {
                lemma_star_absorbs(ps, ts, sp, st, pi as int, ti as int, st);
            }
            if glob_from(ps, ts, pi as int, ti as int) {
                lemma_literal_forward(ps, ts, sp, st, pi - sp);
            }
        }
    }
    while pi < p.len() && p[pi] == '*'
        invariant
            ps == p@,
            ts == t@,
            pi <= ps.len(),
            ti == ts.len(),
            glob_matches(ps, ts) == glob_from(ps, ts, pi as int, ti as int),
        decreases ps.len() - pi,
    {
        pi = pi + 1;
    }
    pi == p.len()
}

/// Wildcard match of `text` against `pattern`, where `*` matches any run
/// of characters (none included) and nothing else is special.
pub fn glob_match(pattern: &str, text: &str) -> (b: bool)
    ensures
        b == glob_matches(pattern@, text@),
{
    let p = chars_of(pattern);
    let t = chars_of(text);
    glob_match_chars(p.as_slice(), t.as_slice())
}

/// Whether node `id` is a hit for `query`: its lowercased name matches the
/// lowercased query as a glob when the query holds a `*`, and otherwise
/// holds it as a substring.
pub open spec fn is_hit(tree: &Tree, id: NodeId, query: Seq<char>) -> bool {
    let name = lowercase_of(tree.name_at(id as int));
    let needle = lowercase_of(query);
    if query.contains('*') {
        glob_matches(needle, name)
    } else {
        occurs_in(needle, name)
    }
}

/// Whether `cs` holds a `*`.
fn has_star(cs: &[char]) -> (b: bool)
    ensures
        b == cs@.contains('*'),
{
    let mut i: usize = 0;
    while i < cs.len()
        invariant
            i <= cs@.len(),
            forall|k: int| 0 <= k < i ==> cs@[k] != '*',
        decreases cs@.len() - i,
    {
        if cs[i] == '*' {
            return true;
        }
        i = i + 1;
    }
    false
}

/// Every node of the subtree of `root` (`root` included), in the order of
/// [`Tree::descendants`], whose name matches `query`, case-insensitively.
/// A query with a `*` is a wildcard glob; anything else is a plain
/// substring match. An empty query matches nothing.
pub fn search(tree: &Tree, root: NodeId, query: &str) -> (hits: Vec<NodeId>)
    requires
        tree.wf(),
        root < tree.node_total(),
    ensures
        query@.len() == 0 ==> hits@.len() == 0,
        query@.len() > 0 ==> hits@ == tree.subtree_order(root as int).filter(
            |id: NodeId| is_hit(tree, id, query@),
        ),
{
    if query.is_empty() {
        return Vec::new();
    }
    let qchars = chars_of(query);
    let is_glob = has_star(qchars.as_slice());
    let needle_s = to_lowercase(query);
    let needle = chars_of(needle_s.as_str());
    let ids = tree.descendants(root);
    let ghost d = ids@;
    let ghost pred = |id: NodeId| is_hit(tree, id, query@);
    let mut hits: Vec<NodeId> = Vec::new();
    let mut i: usize = 0;
    while i < ids.len()
        invariant
            tree.wf(),
            d == ids@,
            d == tree.subtree_order(root as int),
            forall|k: int| 0 <= k < d.len() ==> #[trigger] d[k] < tree.node_total(),
            is_glob == query@.contains('*'),
            needle@ == lowercase_of(query@),
            pred == (|id: NodeId| is_hit(tree, id, query@)),
            i <= d.len(),
            hits@ == d.take(i as int).filter(pred),
        decreases d.len() - i,
    {
        let id = ids[i];
        let lower = to_lowercase(tree.name(id));
        let name = chars_of(lower.as_str());
        let hit = if is_glob {
            glob_match_chars(needle.as_slice(), name.as_slice())
        } else {
            chars_contain(name.as_slice(), needle.as_slice())
        };
        proof {
            assert(hit == pred(id));
            assert(d.take(i + 1).drop_last() =~= d.take(i as int));
            assert(d.take(i + 1).last() == id);
            reveal(Seq::filter);
        }
        if hit {
            hits.push(id);
        }
        i = i + 1;
    }
    proof {
        assert(d.take(d.len() as int) =~= d);
    }
    hits
}

} // verus!
