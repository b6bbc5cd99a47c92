//! The tools the model may call against the scan.
//!
//! Every tool is read-only. The assistant advises; the user acts through
//! the right-click menu. Nothing here opens, moves or deletes anything,
//! and there is deliberately no tool that could.
//!
//! Each tool resolves a *path string* the model supplies. That string
//! crossed a network boundary and was written by a language model, so it
//! is matched against the tree by walking names from the scan root —
//! never handed to the filesystem, and never able to escape the scan.

use vstd::prelude::*;
use vstd::string::StringExecFns;

use crate::digest::{
    find_by_name, find_by_name_text, folder_listing, folder_listing_text, largest_files,
    largest_files_text, node_detail, node_detail_text, reclaimable, reclaimable_text,
    type_breakdown, type_breakdown_text,
};
use crate::text::{chars_of, lowercase_of, string_from_chars, to_lowercase, trim, trim_bounds, trim_of};
use crate::tree::{NodeId, Tree};

verus! {

broadcast use vstd::string::group_string_axioms;

/// Rows a tool returns when the call names no limit.
pub const DEFAULT_LIMIT: usize = 20;

/// The most rows any call may ask for.
pub const MAX_LIMIT: usize = 40;

// ---------------------------------------------------------------------
// Path resolution
// ---------------------------------------------------------------------

/// Either separator a model may write.
pub open spec fn is_sep(c: char) -> bool {
    c == '/' || c == '\\'
}

/// A piece between separators, trimmed; dropped when empty or `.`.
pub open spec fn kept_segment(cur: Seq<char>) -> Seq<Seq<char>> {
    let t = trim_of(cur);
    if t.len() == 0 || t == seq!['.'] {
        Seq::empty()
    } else {
        seq![t]
    }
}

/// The kept pieces of `s`, the current piece having gathered `cur` so far.
pub open spec fn segments_from(s: Seq<char>, cur: Seq<char>) -> Seq<Seq<char>>
    decreases s.len(),
{
    if s.len() == 0 {
        kept_segment(cur)
    } else if is_sep(s[0]) {
        kept_segment(cur) + segments_from(s.drop_first(), Seq::empty())
    } else {
        segments_from(s.drop_first(), cur.push(s[0]))
    }
}

/// The names a model-written path walks through, in order.
pub open spec fn path_segments(path: Seq<char>) -> Seq<Seq<char>> {
    segments_from(trim_of(path), Seq::empty())
}

/// `s` without the separators it ends with.
pub open spec fn strip_seps_end(s: Seq<char>) -> Seq<char>
    decreases s.len(),
{
    if s.len() > 0 && is_sep(s.last()) {
        strip_seps_end(s.drop_last())
    } else {
        s
    }
}

/// The first node of `s` whose lowercased name is `wanted`.
pub open spec fn first_named(t: &Tree, s: Seq<NodeId>, wanted: Seq<char>) -> Option<NodeId>
    decreases s.len(),
{
    if s.len() == 0 {
        None
    } else if lowercase_of(t.name_at(s[0] as int)) == wanted {
        Some(s[0])
    } else {
        first_named(t, s.drop_first(), wanted)
    }
}

/// Where walking `segs` down from `node`, one child name at a time, ends.
pub open spec fn walk_names(t: &Tree, node: int, segs: Seq<Seq<char>>) -> Option<int>
    decreases segs.len(),
{
    if segs.len() == 0 {
        Some(node)
    } else {
        match first_named(t, t.kids(node), lowercase_of(segs[0])) {
            None => None,
            Some(c) => walk_names(t, c as int, segs.drop_first()),
        }
    }
}

/// The node a model-written path names: either separator, an optional
/// leading root name, case-insensitive, and empty means the root.
pub open spec fn resolved(t: &Tree, root: int, path: Seq<char>) -> Option<int> {
    let segs = path_segments(path);
    if segs.len() == 0 {
        Some(root)
    } else {
        let root_name = lowercase_of(strip_seps_end(t.name_at(root)));
        let rest = if root_name.len() > 0 && lowercase_of(segs[0]) == root_name {
            segs.drop_first()
        } else {
            segs
        };
        walk_names(t, root, rest)
    }
}

pub open spec fn views(v: Seq<String>) -> Seq<Seq<char>> {
    v.map_values(|x: String| x@)
}

/// Appends the piece `cs[from..to]` to `out` when it is kept.
fn push_kept(out: &mut Vec<String>, cs: &[char], from: usize, to: usize)
    requires
        from <= to <= cs@.len(),
    ensures
        views(final(out)@) == views(old(out)@) + kept_segment(cs@.subrange(from as int, to as int)),
{
    let piece = vstd::slice::slice_subrange(cs, from, to);
    let (i, j) = trim_bounds(piece);
    if i == j || (j - i == 1 && piece[i] == '.') {
        proof {
            let t = trim_of(cs@.subrange(from as int, to as int));
            assert(piece@ == cs@.subrange(from as int, to as int));
            if i != j {
                assert(t =~= seq!['.']);
            }
            assert(views(old(out)@) + Seq::<Seq<char>>::empty() =~= views(old(out)@));
        }
    } else {
        let s = string_from_chars(piece, i, j);
        let ghost before = out@;
        out.push(s);
        proof {
            let t = trim_of(cs@.subrange(from as int, to as int));
            assert(piece@ == cs@.subrange(from as int, to as int));
            assert(t != seq!['.']) by {
                if t == seq!['.'] {
                    assert(t.len() == 1);
                    assert(t[0] == piece@[i as int]);
                }
            }
            assert(views(out@) =~= views(before) + seq![t]);
        }
    }
}

/// The kept pieces of `s` (`segments_from(s, "")`).
fn split_segments(s: &str) -> (out: Vec<String>)
    ensures
        views(out@) == segments_from(s@, Seq::empty()),
{
    let cs = chars_of(s);
    let n = cs.len();
    let mut out: Vec<String> = Vec::new();
    let mut start: usize = 0;
    let mut i: usize = 0;
    proof {
        assert(cs@.subrange(0, n as int) =~= cs@);
        assert(cs@.subrange(0, 0) =~= Seq::<char>::empty());
        assert(views(out@) =~= Seq::<Seq<char>>::empty());
    }
    while i < n
        invariant
            n == cs@.len(),
            cs@ == s@,
            start <= i <= n,
            views(out@) + segments_from(cs@.subrange(i as int, n as int), cs@.subrange(
                start as int,
                i as int,
            )) == segments_from(s@, Seq::empty()),
        decreases n - i,
    {
        let ghost rest = cs@.subrange(i as int, n as int);
        let ghost cur = cs@.subrange(start as int, i as int);
        proof {
            assert(rest.drop_first() =~= cs@.subrange(i + 1, n as int));
            assert(rest[0] == cs@[i as int]);
        }
        if cs[i] == '/' || cs[i] == '\\' {
            let ghost before = views(out@);
            push_kept(&mut out, cs.as_slice(), start, i);
            proof {
                assert(cs@.subrange(i + 1, i + 1) =~= Seq::<char>::empty());
                assert(before + (kept_segment(cur) + segments_from(rest.drop_first(), Seq::empty()))
                    =~= (before + kept_segment(cur)) + segments_from(rest.drop_first(), Seq::empty()));
            }
            start = i + 1;
        } else {
            proof {
                assert(cur.push(cs@[i as int]) =~= cs@.subrange(start as int, i + 1));
            }
        }
        i = i + 1;
    }
    let ghost before = views(out@);
    push_kept(&mut out, cs.as_slice(), start, n);
    proof {
        assert(cs@.subrange(n as int, n as int) =~= Seq::<char>::empty());
    }
    out
}

/// `s` without its trailing separators.
fn strip_trailing_seps(s: &str) -> (r: String)
    ensures
        r@ == strip_seps_end(s@),
{
    let cs = chars_of(s);
    let mut j = cs.len();
    proof {
        assert(cs@.subrange(0, j as int) =~= cs@);
    }
    while j > 0 && (cs[j - 1] == '/' || cs[j - 1] == '\\')
        invariant
            j <= cs@.len(),
            cs@ == s@,
            strip_seps_end(cs@.subrange(0, j as int)) == strip_seps_end(s@),
        decreases j,
    {
        proof {
            assert(cs@.subrange(0, j as int).drop_last() =~= cs@.subrange(0, j - 1));
        }
        j = j - 1;
    }
    string_from_chars(cs.as_slice(), 0, j)
}

/// The first child in `kids` whose lowercased name is `wanted`.
fn find_named(tree: &Tree, kids: &[NodeId], wanted: &String) -> (r: Option<NodeId>)
    requires
        tree.wf(),
        forall|k: int| 0 <= k < kids@.len() ==> #[trigger] kids@[k] < tree.node_total(),
    ensures
        r == first_named(tree, kids@, wanted@),
{
    let mut k: usize = 0;
    proof {
        assert(kids@.subrange(0, kids@.len() as int) =~= kids@);
    }
    while k < kids.len()
        invariant
            tree.wf(),
            k <= kids@.len(),
            forall|m: int| 0 <= m < kids@.len() ==> #[trigger] kids@[m] < tree.node_total(),
            first_named(tree, kids@.subrange(k as int, kids@.len() as int), wanted@) == first_named(
                tree,
                kids@,
                wanted@,
            ),
        decreases kids@.len() - k,
    {
        let ghost rest = kids@.subrange(k as int, kids@.len() as int);
        proof {
            assert(rest[0] == kids@[k as int]);
            assert(rest.drop_first() =~= kids@.subrange(k + 1, kids@.len() as int));
        }
        let child = kids[k];
        let name = to_lowercase(tree.name(child));
        if name == *wanted {
            return Some(child);
        }
        k = k + 1;
    }
    None
}

/// Match a model-written path onto a node by walking names from the root.
///
/// Tolerant on purpose: either separator, an optional leading root name,
/// case-insensitive, and empty means the root. It resolves only by
/// walking the in-memory tree, so it cannot name anything outside the
/// scan no matter what the model writes.
pub fn resolve(tree: &Tree, root: NodeId, path: &str) -> (r: Option<NodeId>)
    requires
        tree.wf(),
        root < tree.node_total(),
    ensures
        match r {
            Some(n) => resolved(tree, root as int, path@) == Some(n as int) && n < tree.node_total(),
            None => resolved(tree, root as int, path@) is None,
        },
{
    let cleaned = trim(path);
    let segs = split_segments(cleaned.as_str());
    let ghost sv = views(segs@);
    if segs.len() == 0 {
        return Some(root);
    }
    let stripped = strip_trailing_seps(tree.name(root));
    let root_name = to_lowercase(stripped.as_str());
    let mut i: usize = 0;
    proof {
        assert(sv.subrange(0, sv.len() as int) =~= sv);
        assert(sv[0] == segs@[0]@);
    }
    if root_name.as_str().is_empty() {
    } else {
        let first = to_lowercase(segs[0].as_str());
        if first == root_name {
            i = 1;
            proof {
                assert(sv.subrange(1, sv.len() as int) =~= sv.drop_first());
            }
        }
    }
    let mut current = root;
    while i < segs.len()
        invariant
            tree.wf(),
            current < tree.node_total(),
            i <= segs@.len(),
            sv == views(segs@),
            walk_names(tree, current as int, sv.subrange(i as int, sv.len() as int)) == resolved(
                tree,
                root as int,
                path@,
            ),
        decreases segs@.len() - i,
    {
        let ghost rest = sv.subrange(i as int, sv.len() as int);
        proof {
            assert(rest[0] == segs@[i as int]@);
            assert(rest.drop_first() =~= sv.subrange(i + 1, sv.len() as int));
        }
        let wanted = to_lowercase(segs[i].as_str());
        let kids = tree.children(current);
        match find_named(tree, kids, &wanted) {
            None => {
                return None;
            },
            Some(c) => {
                proof {
                    lemma_first_named_in(tree, kids@, wanted@);
                }
                current = c;
            },
        }
        i = i + 1;
    }
    proof {
        assert(sv.subrange(i as int, sv.len() as int) =~= Seq::<Seq<char>>::empty());
    }
    Some(current)
}

proof fn lemma_first_named_in(t: &Tree, s: Seq<NodeId>, wanted: Seq<char>)
    ensures
        first_named(t, s, wanted) matches Some(c) ==> s.contains(c),
    decreases s.len(),
{
    if s.len() > 0 {
        lemma_first_named_in(t, s.drop_first(), wanted);
        if let Some(c) = first_named(t, s.drop_first(), wanted) {
            if lowercase_of(t.name_at(s[0] as int)) != wanted {
                let k = choose|k: int| 0 <= k < s.drop_first().len() && s.drop_first()[k] == c;
                assert(s[k + 1] == c);
            }
        }
        if lowercase_of(t.name_at(s[0] as int)) == wanted {
            assert(s[0] == s[0]);
        }
    }
}

// ---------------------------------------------------------------------
// Calls
// ---------------------------------------------------------------------

/// The arguments of one call, as far as any tool reads them: each is
/// absent when the call's JSON lacks it or gives it another type.
pub struct ToolArgs {
    pub path: Option<String>,
    pub name: Option<String>,
    pub limit: Option<u64>,
    pub min_mb: Option<u64>,
}

pub open spec fn text_or_empty(o: Option<String>) -> Seq<char> {
    match o {
        Some(s) => s@,
        None => Seq::empty(),
    }
}

pub open spec fn display_path(p: Seq<char>) -> Seq<char> {
    if p.len() == 0 {
        "the scan root"@
    } else {
        p
    }
}

/// The trace line shown for a call.
pub open spec fn describe_text(name: Seq<char>, args: &ToolArgs) -> Seq<char> {
    let path = text_or_empty(args.path);
    if name == "list_folder"@ {
        "Listing "@ + display_path(path)
    } else if name == "find_large_files"@ {
        "Finding large files in "@ + display_path(path)
    } else if name == "folder_breakdown"@ {
        "File types in "@ + display_path(path)
    } else if name == "find_by_name"@ {
        "Searching for \""@ + text_or_empty(args.name) + "\""@
    } else if name == "find_reclaimable"@ {
        "Checking for caches and build output"@
    } else if name == "folder_info"@ {
        "Checking "@ + display_path(path)
    } else {
        "Running "@ + name
    }
}

/// The row cap a call gets: its own limit clamped to `1..=MAX_LIMIT`.
pub open spec fn limit_of(args: &ToolArgs) -> usize {
    match args.limit {
        Some(n) => {
            let m = n as usize;
            if m < 1 {
                1
            } else if m > MAX_LIMIT {
                MAX_LIMIT
            } else {
                m
            }
        },
        None => DEFAULT_LIMIT,
    }
}

/// The size floor of `find_large_files`, in MB.
pub open spec fn min_mb_of(args: &ToolArgs) -> u64 {
    match args.min_mb {
        Some(m) => m,
        None => 100,
    }
}

/// The reply to a path that names nothing: the top level instead.
pub open spec fn not_found_text(t: &Tree, root: int, path: Seq<char>) -> Seq<char> {
    "Error: no folder matching \""@ + path + "\" in this scan. Here is the top level:\n\n"@
        + folder_listing_text(t, root, true, 20)
}

pub open spec fn is_path_tool(name: Seq<char>) -> bool {
    name == "list_folder"@ || name == "find_large_files"@ || name == "folder_breakdown"@ || name
        == "folder_info"@
}

/// What one call answers.
pub open spec fn dispatch_text(
    t: &Tree,
    root: int,
    use_alloc: bool,
    name: Seq<char>,
    args: &ToolArgs,
) -> Seq<char> {
    let limit = limit_of(args);
    if name == "find_reclaimable"@ {
        reclaimable_text(t, root, use_alloc, limit)
    } else if name == "find_by_name"@ {
        match args.name {
            Some(n) => find_by_name_text(t, root, n@, use_alloc, limit),
            None => "Error: `name` is required."@,
        }
    } else if is_path_tool(name) {
        let path = text_or_empty(args.path);
        match resolved(t, root, path) {
            None => not_found_text(t, root, path),
            Some(node) => if name == "list_folder"@ {
                folder_listing_text(t, node, use_alloc, limit)
            } else if name == "folder_breakdown"@ {
                type_breakdown_text(t, node, use_alloc, limit)
            } else if name == "folder_info"@ {
                node_detail_text(t, node, use_alloc)
            } else {
                largest_files_text(t, node, use_alloc, (min_mb_of(args) * 1048576) as u64, limit)
            },
        }
    } else {
        "Error: no tool named `"@ + name + "`."@
    }
}

fn same_text(a: &str, b: &str) -> (r: bool)
    ensures
        r == (a@ == b@),
{
    a.to_owned() == b.to_owned()
}

fn path_arg(args: &ToolArgs) -> (p: &str)
    ensures
        p@ == text_or_empty(args.path),
{
    proof {
        reveal_strlit("");
    }
    match &args.path {
        Some(p) => p.as_str(),
        None => "",
    }
}

fn push_display_path(out: &mut String, path: &str)
    ensures
        final(out)@ == old(out)@ + display_path(path@),
{
    if path.is_empty() {
        out.append("the scan root");
    } else {
        out.append(path);
    }
}

/// A short human-readable line describing what a call is about to do,
/// shown in the panel's trace so the user can see what was inspected.
pub fn describe(name: &str, args: &ToolArgs) -> (s: String)
    ensures
        s@ == describe_text(name@, args),
{
    let path = path_arg(args);
    if same_text(name, "list_folder") {
        let mut s = String::from_str("Listing ");
        push_display_path(&mut s, path);
        s
    } else if same_text(name, "find_large_files") {
        let mut s = String::from_str("Finding large files in ");
        push_display_path(&mut s, path);
        s
    } else if same_text(name, "folder_breakdown") {
        let mut s = String::from_str("File types in ");
        push_display_path(&mut s, path);
        s
    } else if same_text(name, "find_by_name") {
        let mut s = String::from_str("Searching for \"");
        match &args.name {
            Some(n) => s.append(n.as_str()),
            None => {},
        }
        s.append("\"");
        s
    } else if same_text(name, "find_reclaimable") {
        String::from_str("Checking for caches and build output")
    } else if same_text(name, "folder_info") {
        let mut s = String::from_str("Checking ");
        push_display_path(&mut s, path);
        s
    } else {
        let mut s = String::from_str("Running ");
        s.append(name);
        s
    }
}

fn limit_arg(args: &ToolArgs) -> (l: usize)
    ensures
        l == limit_of(args),
{
    match args.limit {
        Some(n) => {
            let m = n as usize;
            if m < 1 {
                1
            } else if m > MAX_LIMIT {
                MAX_LIMIT
            } else {
                m
            }
        },
        None => DEFAULT_LIMIT,
    }
}

/// A miss is common — models guess plausible-looking paths — so the reply
/// hands back the level that *does* exist rather than a bare failure,
/// which usually lets the next call succeed instead of derailing the turn.
fn not_found(tree: &Tree, root: NodeId, path: &str) -> (s: String)
    requires
        tree.wf(),
        root < tree.node_total(),
    ensures
        s@ == not_found_text(tree, root as int, path@),
{
    let mut s = String::from_str("Error: no folder matching \"");
    s.append(path);
    s.append("\" in this scan. Here is the top level:\n\n");
    let listing = folder_listing(tree, root, true, 20);
    s.append(listing.as_str());
    s
}

/// Run one tool call. Errors come back as text for the model to read and
/// recover from — a wrong path is a normal event mid-conversation, not a
/// reason to end the turn.
pub fn dispatch(tree: &Tree, root: NodeId, use_alloc: bool, name: &str, args: &ToolArgs) -> (s: String)
    requires
        tree.wf(),
        root < tree.node_total(),
        name@ == "find_large_files"@ && resolved(tree, root as int, text_or_empty(args.path)) is Some
            ==> min_mb_of(args) * 1048576 <= u64::MAX,
    ensures
        s@ == dispatch_text(tree, root as int, use_alloc, name@, args),
{
    let limit = limit_arg(args);
    if same_text(name, "find_reclaimable") {
        reclaimable(tree, root, use_alloc, limit)
    } else if same_text(name, "find_by_name") {
        match &args.name {
            Some(needle) => find_by_name(tree, root, needle.as_str(), use_alloc, limit),
            None => String::from_str("Error: `name` is required."),
        }
    } else if same_text(name, "list_folder") || same_text(name, "find_large_files") || same_text(
        name,
        "folder_breakdown",
    ) || same_text(name, "folder_info") {
        let path = path_arg(args);
        match resolve(tree, root, path) {
            None => not_found(tree, root, path),
            Some(node) => {
                if same_text(name, "list_folder") {
                    folder_listing(tree, node, use_alloc, limit)
                } else if same_text(name, "folder_breakdown") {
                    type_breakdown(tree, node, use_alloc, limit)
                } else if same_text(name, "folder_info") {
                    node_detail(tree, node, use_alloc)
                } else {
                    let min_mb: u64 = match args.min_mb {
                        Some(m) => m,
                        None => 100,
                    };
                    largest_files(tree, node, use_alloc, min_mb * 1024 * 1024, limit)
                }
            },
        }
    } else {
        let mut s = String::from_str("Error: no tool named `");
        s.append(name);
        s.append("`.");
        s
    }
}

/// Walking names only ever steps from a node to one of its children.
proof fn lemma_walk_stays_below(t: &Tree, root: int, node: int, segs: Seq<Seq<char>>)
    requires
        t.wf(),
        0 <= node < t.node_total(),
        t.is_ancestor(root, node),
    ensures
        walk_names(t, node, segs) matches Some(n) ==> 0 <= n < t.node_total() && t.is_ancestor(root, n),
    decreases segs.len(),
{
    if segs.len() > 0 {
        let kids = t.kids(node);
        if let Some(c) = first_named(t, kids, lowercase_of(segs[0])) {
            lemma_first_named_in(t, kids, lowercase_of(segs[0]));
            t.lemma_kid_below(root, node, c);
            lemma_walk_stays_below(t, root, c as int, segs.drop_first());
        }
    }
}

/// Whatever a model writes, a path resolves to the scan root or to a node
/// beneath it, never to anything outside the scan.
pub proof fn law_resolution_stays_in_scan(t: &Tree, root: int, path: Seq<char>)
    requires
        t.wf(),
        0 <= root < t.node_total(),
    ensures
        resolved(t, root, path) matches Some(n) ==> 0 <= n < t.node_total() && t.is_ancestor(root, n),
{
    t.lemma_ancestor_self(root);
    let segs = path_segments(path);
    if segs.len() > 0 {
        lemma_walk_stays_below(t, root, root, segs);
        lemma_walk_stays_below(t, root, root, segs.drop_first());
    }
}

/// The tools the assistant is offered, in the order they are described
/// to the model. Every one of them only reads the scan.
pub open spec fn tool_names_spec() -> Seq<Seq<char>> {
    seq![
        "list_folder"@,
        "find_large_files"@,
        "folder_breakdown"@,
        "find_by_name"@,
        "find_reclaimable"@,
        "folder_info"@,
    ]
}

/// Whether [`dispatch`] answers `name` with a tool of its own rather than
/// with the unknown-tool error.
pub open spec fn dispatched(name: Seq<char>) -> bool {
    name == "find_reclaimable"@ || name == "find_by_name"@ || is_path_tool(name)
}

/// Whether a name reads as a query: it starts `list_`, `find_` or
/// `folder_`.
pub open spec fn reads_as_query(name: Seq<char>) -> bool {
    (name.len() >= 5 && name.take(5) == "list_"@) || (name.len() >= 5 && name.take(5) == "find_"@)
        || (name.len() >= 7 && name.take(7) == "folder_"@)
}

pub fn tool_names() -> (v: Vec<&'static str>)
    ensures
        v@.map_values(|n: &str| n@) == tool_names_spec(),
{
    let v = vec![
        "list_folder",
        "find_large_files",
        "folder_breakdown",
        "find_by_name",
        "find_reclaimable",
        "folder_info",
    ];
    proof {
        assert(v@.map_values(|n: &str| n@) =~= tool_names_spec());
    }
    v
}

/// The tools offered are exactly the ones [`dispatch`] answers, every one
/// of them named as a query, and any other name gets the unknown-tool
/// error.
pub proof fn law_offered_tools_are_the_dispatched_queries(
    t: &Tree,
    root: int,
    use_alloc: bool,
    name: Seq<char>,
    args: &ToolArgs,
)
    ensures
        tool_names_spec().contains(name) <==> dispatched(name),
        tool_names_spec().contains(name) ==> reads_as_query(name),
        tool_names_spec().len() == 6,
        !dispatched(name) ==> dispatch_text(t, root, use_alloc, name, args) == "Error: no tool named `"@
            + name + "`."@,
{
    reveal_strlit("list_folder");
    reveal_strlit("find_large_files");
    reveal_strlit("folder_breakdown");
    reveal_strlit("find_by_name");
    reveal_strlit("find_reclaimable");
    reveal_strlit("folder_info");
    reveal_strlit("list_");
    reveal_strlit("find_");
    reveal_strlit("folder_");
    let names = tool_names_spec();
    if dispatched(name) {
        if name == "list_folder"@ {
            assert(names[0] == name);
        } else if name == "find_large_files"@ {
            assert(names[1] == name);
        } else if name == "folder_breakdown"@ {
            assert(names[2] == name);
        } else if name == "find_by_name"@ {
            assert(names[3] == name);
        } else if name == "find_reclaimable"@ {
            assert(names[4] == name);
        } else {
            assert(names[5] == name);
        }
    }
    if names.contains(name) {
        let k = choose|k: int| 0 <= k < names.len() && names[k] == name;
        if k == 0 {
            assert(name.take(5) =~= "list_"@);
        } else if k == 1 || k == 3 || k == 4 {
            assert(name.take(5) =~= "find_"@);
        } else {
            assert(name.take(7) =~= "folder_"@);
        }
    }
}

} // verus!
