//! Renders a [`Tree`] as a Markdown report: a summary table, a
//! box-drawing folder tree with aligned size and percentage columns, and
//! largest-folders, largest-files and by-type tables.
//!
//! Every number in the report comes from one size mode (on-disk or
//! logical) chosen in the options, and everything is sorted with explicit
//! tie-breaks, so an unchanged drive exports to the same text every time.

use vstd::prelude::*;
use vstd::string::StringExecFns;

use crate::fmt::{bytes, bytes_text, count, decimal, decimal_string, grouped, percent, percent_text};
use crate::sort::{chars_lt, lemma_ranked_perm, rank_positions, ranked, TieBreak};
use crate::text::{chars_of, pad_left, pad_right, push_char, push_pad_left, push_pad_right, char_count};
use crate::tree::{
    join, lemma_sum_vals_prefix, lemma_sum_vals_subset, ExtStat, NodeId, Tree,
};
use crate::csr::sum_vals;
use crate::volume::{used_of, VolumeInfo};

verus! {

/// How the children of a folder are ordered in the tree section.
#[derive(Clone, Copy, Debug, PartialEq, Eq, Structural)]
pub enum SortBy {
    Size,
    Name,
}

/// What the exported document includes.
#[derive(Clone, Copy, Debug, PartialEq, Eq, Structural)]
pub struct ExportOptions {
    /// `None`: no depth limit.
    pub max_depth: Option<u32>,
    /// Entries smaller than this are left out of the tree section.
    pub min_size: u64,
    /// `false` renders folders only.
    pub include_files: bool,
    /// Cap on the children shown per folder; the rest collapse into one
    /// `… N more items` row. `None`: no cap.
    pub top_n: Option<u32>,
    pub sort_by: SortBy,
    /// On-disk (allocated) sizes when `true`, logical sizes otherwise.
    pub use_alloc: bool,
    pub largest_folders: usize,
    pub largest_files: usize,
    pub by_type_limit: usize,
}

impl Default for ExportOptions {
    /// The clipboard-safe preset: depth 4, top 20 children per folder,
    /// on-disk sizes.
    fn default() -> (r: ExportOptions)
        ensures
            r == (ExportOptions {
                max_depth: Some(4),
                min_size: 0,
                include_files: true,
                top_n: Some(20),
                sort_by: SortBy::Size,
                use_alloc: true,
                largest_folders: 10,
                largest_files: 10,
                by_type_limit: 20,
            }),
    {
        ExportOptions {
            max_depth: Some(4),
            min_size: 0,
            include_files: true,
            top_n: Some(20),
            sort_by: SortBy::Size,
            use_alloc: true,
            largest_folders: 10,
            largest_files: 10,
            by_type_limit: 20,
        }
    }
}

/// Scan metadata shown in the header table, pre-formatted by the caller.
pub struct ScanMeta<'a> {
    pub scanned_at: &'a str,
    pub engine: &'a str,
    pub duration: &'a str,
    pub volume: Option<&'a VolumeInfo>,
}

/// The size of node `id` in the chosen mode.
pub open spec fn size_in(t: &Tree, id: int, use_alloc: bool) -> u64 {
    if use_alloc {
        t.subtree_alloc_at(id)
    } else {
        t.subtree_logical_at(id)
    }
}

/// The per-node sizes in the chosen mode.
pub open spec fn sizes_in(t: &Tree, use_alloc: bool) -> Seq<u64> {
    if use_alloc {
        t.subtree_alloc_seq()
    } else {
        t.subtree_logical_seq()
    }
}

fn size_of(tree: &Tree, id: NodeId, opts: &ExportOptions) -> (n: u64)
    requires
        tree.wf(),
        id < tree.node_total(),
    ensures
        n == size_in(tree, id as int, opts.use_alloc),
{
    if opts.use_alloc {
        tree.subtree_alloc(id)
    } else {
        tree.subtree_logical(id)
    }
}

// ---------------------------------------------------------------------
// Title and summary
// ---------------------------------------------------------------------

/// The document title.
pub open spec fn title_text(root_path: Seq<char>, volume: Option<&VolumeInfo>) -> Seq<char> {
    match volume {
        Some(v) => if v.label@.len() > 0 {
            "# SpaceTree — "@ + root_path + " ("@ + v.label@ + ")\n\n"@
        } else {
            "# SpaceTree — "@ + root_path + "\n\n"@
        },
        None => "# SpaceTree — "@ + root_path + "\n\n"@,
    }
}

fn write_title(out: &mut String, root_path: &str, meta: &ScanMeta)
    ensures
        final(out)@ == old(out)@ + title_text(root_path@, meta.volume),
{
    proof {
        reveal_strlit("# SpaceTree — ");
        reveal_strlit(" (");
        reveal_strlit(")\n\n");
        reveal_strlit("\n\n");
    }
    out.append("# SpaceTree — ");
    out.append(root_path);
    match meta.volume {
        Some(v) => {
            if !v.label.as_str().is_empty() {
                out.append(" (");
                out.append(v.label.as_str());
                out.append(")\n\n");
            } else {
                out.append("\n\n");
            }
        },
        None => {
            out.append("\n\n");
        },
    }
    proof {
        assert(final(out)@ =~= old(out)@ + title_text(root_path@, meta.volume));
    }
}

/// Number of directories among the nodes `s`.
pub open spec fn dir_count(t: &Tree, s: Seq<NodeId>) -> int
    decreases s.len(),
{
    if s.len() == 0 {
        0
    } else {
        dir_count(t, s.drop_last()) + if t.is_dir_at(s.last() as int) {
            1int
        } else {
            0int
        }
    }
}

/// The volume rows of the summary table.
pub open spec fn volume_rows(v: &VolumeInfo) -> Seq<char> {
    let used = used_of(v.total_bytes, v.free_bytes);
    "| **Filesystem** | "@ + v.filesystem@ + " · "@ + bytes_text(v.cluster_bytes as nat)
        + " clusters |\n"@ + "| **Capacity** | "@ + bytes_text(v.total_bytes as nat) + " |\n"@
        + "| **Used** | "@ + bytes_text(used as nat) + " ("@ + percent_text(
        used as nat,
        v.total_bytes as nat,
    ) + ") |\n"@ + "| **Free** | "@ + bytes_text(v.free_bytes as nat) + " ("@ + percent_text(
        v.free_bytes as nat,
        v.total_bytes as nat,
    ) + ") |\n"@
}

/// The note shown when the scan indexed less than the drive reports used.
pub open spec fn shortfall_note(v: &VolumeInfo, root_size: u64) -> Seq<char> {
    let used = used_of(v.total_bytes, v.free_bytes);
    if root_size < used {
        "> Indexed total is "@ + bytes_text((used - root_size) as nat)
            + " below drive \"used\" — common causes are files outside the scanned folder, in-use system files, and other users' data.\n\n"@
    } else {
        Seq::empty()
    }
}

/// The summary table.
pub open spec fn summary_text(t: &Tree, root: int, meta: &ScanMeta, root_size: u64) -> Seq<char> {
    "| | |\n|---|---|\n"@ + "| **Scanned** | "@ + meta.scanned_at@ + " |\n"@ + "| **Engine** | "@
        + meta.engine@ + " · "@ + meta.duration@ + " |\n"@ + match meta.volume {
        Some(v) => volume_rows(v),
        None => Seq::empty(),
    } + "| **Indexed** | "@ + grouped(decimal(t.files_at(root) as nat)) + " files · "@ + grouped(
        decimal((dir_count(t, t.subtree_order(root)) - 1) as nat),
    ) + " folders · "@ + bytes_text(root_size as nat) + " |\n\n"@ + match meta.volume {
        Some(v) => shortfall_note(v, root_size),
        None => Seq::empty(),
    }
}

/// Number of directories in the subtree of `root`, root included.
pub(crate) fn count_dirs(tree: &Tree, root: NodeId) -> (n: u64)
    requires
        tree.wf(),
        root < tree.node_total(),
    ensures
        n == dir_count(tree, tree.subtree_order(root as int)),
        n <= tree.node_total(),
{
    let ids = tree.descendants(root);
    proof {
        tree.law_subtree_order_is_distinct(root as int);
    }
    let mut n: u64 = 0;
    let mut i: usize = 0;
    while i < ids.len()
        invariant
            tree.wf(),
            ids@ == tree.subtree_order(root as int),
            ids@.len() <= tree.node_total(),
            forall|k: int| 0 <= k < ids@.len() ==> #[trigger] ids@[k] < tree.node_total(),
            i <= ids@.len(),
            n == dir_count(tree, ids@.take(i as int)),
            n <= i,
        decreases ids@.len() - i,
    {
        proof {
            assert(ids@.take(i + 1).drop_last() =~= ids@.take(i as int));
        }
        if tree.is_dir(ids[i]) {
            n = n + 1;
        }
        i = i + 1;
    }
    proof {
        assert(ids@.take(ids@.len() as int) =~= ids@);
    }
    n
}

fn write_volume_rows(out: &mut String, vol: &VolumeInfo)
    ensures
        final(out)@ == old(out)@ + volume_rows(vol),
{
    proof {
        reveal_strlit("| **Filesystem** | ");
        reveal_strlit(" · ");
        reveal_strlit(" clusters |\n");
        reveal_strlit("| **Capacity** | ");
        reveal_strlit(" |\n");
        reveal_strlit("| **Used** | ");
        reveal_strlit(" (");
        reveal_strlit(") |\n");
        reveal_strlit("| **Free** | ");
    }
    let used = vol.used_bytes();
    out.append("| **Filesystem** | ");
    out.append(vol.filesystem.as_str());
    out.append(" · ");
    out.append(bytes(vol.cluster_bytes as u64).as_str());
    out.append(" clusters |\n");
    out.append("| **Capacity** | ");
    out.append(bytes(vol.total_bytes).as_str());
    out.append(" |\n");
    let ghost a = out@;
    out.append("| **Used** | ");
    out.append(bytes(used).as_str());
    out.append(" (");
    out.append(percent(used, vol.total_bytes).as_str());
    out.append(") |\n");
    let ghost b = out@;
    out.append("| **Free** | ");
    out.append(bytes(vol.free_bytes).as_str());
    out.append(" (");
    out.append(percent(vol.free_bytes, vol.total_bytes).as_str());
    out.append(") |\n");
    proof {
        assert(final(out)@ =~= old(out)@ + volume_rows(vol));
    }
}

/// The summary's volume rows end with the used bytes (the capacity less
/// the free bytes, none when the drive reports more free than its
/// capacity) and their share of the capacity, then the free bytes and
/// their own share of the capacity.
pub proof fn law_volume_rows_end_with_used_then_free(v: &VolumeInfo)
    ensures
        ({
            let cap: nat = v.total_bytes as nat;
            let free: nat = v.free_bytes as nat;
            let used: nat = if free <= cap {
                (cap - free) as nat
            } else {
                0
            };
            let tail = "| **Used** | "@ + bytes_text(used) + " ("@ + percent_text(used, cap) + ") |\n"@
                + "| **Free** | "@ + bytes_text(free) + " ("@ + percent_text(free, cap) + ") |\n"@;
            let rows = volume_rows(v);
            tail.len() <= rows.len() && rows.subrange(rows.len() - tail.len(), rows.len() as int) == tail
        }),
{
    let cap: nat = v.total_bytes as nat;
    let free: nat = v.free_bytes as nat;
    let used: nat = if free <= cap {
        (cap - free) as nat
    } else {
        0
    };
    assert(used == used_of(v.total_bytes, v.free_bytes) as nat);
    let head = "| **Filesystem** | "@ + v.filesystem@ + " · "@ + bytes_text(v.cluster_bytes as nat)
        + " clusters |\n"@ + "| **Capacity** | "@ + bytes_text(cap) + " |\n"@;
    let tail = "| **Used** | "@ + bytes_text(used) + " ("@ + percent_text(used, cap) + ") |\n"@
        + "| **Free** | "@ + bytes_text(free) + " ("@ + percent_text(free, cap) + ") |\n"@;
    let rows = volume_rows(v);
    assert(rows =~= head + tail);
    assert(rows.subrange(rows.len() - tail.len(), rows.len() as int) =~= tail);
}

fn write_shortfall(out: &mut String, vol: &VolumeInfo, root_size: u64)
    ensures
        final(out)@ == old(out)@ + shortfall_note(vol, root_size),
{
    proof {
        reveal_strlit("> Indexed total is ");
        reveal_strlit(
            " below drive \"used\" — common causes are files outside the scanned folder, in-use system files, and other users' data.\n\n",
        );
    }
    let used = vol.used_bytes();
    if root_size < used {
        out.append("> Indexed total is ");
        out.append(bytes(used - root_size).as_str());
        out.append(
            " below drive \"used\" — common causes are files outside the scanned folder, in-use system files, and other users' data.\n\n",
        );
    }
    proof {
        assert(final(out)@ =~= old(out)@ + shortfall_note(vol, root_size));
    }
}

/// The `Indexed` row of the summary table.
pub open spec fn indexed_row(t: &Tree, root: int, root_size: u64) -> Seq<char> {
    "| **Indexed** | "@ + grouped(decimal(t.files_at(root) as nat)) + " files · "@ + grouped(
        decimal((dir_count(t, t.subtree_order(root)) - 1) as nat),
    ) + " folders · "@ + bytes_text(root_size as nat) + " |\n\n"@
}

fn write_indexed_row(out: &mut String, tree: &Tree, root: NodeId, root_size: u64)
    requires
        tree.wf(),
        root < tree.node_total(),
        tree.is_dir_at(root as int),
    ensures
        final(out)@ == old(out)@ + indexed_row(tree, root as int, root_size),
{
    proof {
        reveal_strlit("| **Indexed** | ");
        reveal_strlit(" files · ");
        reveal_strlit(" folders · ");
        reveal_strlit(" |\n\n");
    }
    let dirs = count_dirs(tree, root);
    proof {
        tree.lemma_subtree_order_starts_at(root as int);
        lemma_dir_count_root(tree, tree.subtree_order(root as int));
    }
    out.append("| **Indexed** | ");
    out.append(count(tree.file_count(root) as u64).as_str());
    out.append(" files · ");
    out.append(count(dirs - 1).as_str());
    out.append(" folders · ");
    out.append(bytes(root_size).as_str());
    out.append(" |\n\n");
    proof {
        assert(final(out)@ =~= old(out)@ + indexed_row(tree, root as int, root_size));
    }
}

#[verifier::rlimit(40)]
fn write_summary_table(out: &mut String, tree: &Tree, root: NodeId, meta: &ScanMeta, root_size: u64)
    requires
        tree.wf(),
        root < tree.node_total(),
        tree.is_dir_at(root as int),
    ensures
        final(out)@ == old(out)@ + summary_text(tree, root as int, meta, root_size),
{
    proof {
        reveal_strlit("| | |\n|---|---|\n");
        reveal_strlit("| **Scanned** | ");
        reveal_strlit(" |\n");
        reveal_strlit("| **Engine** | ");
        reveal_strlit(" · ");
    }
    out.append("| | |\n|---|---|\n");
    out.append("| **Scanned** | ");
    out.append(meta.scanned_at);
    out.append(" |\n");
    out.append("| **Engine** | ");
    out.append(meta.engine);
    out.append(" · ");
    out.append(meta.duration);
    out.append(" |\n");
    let ghost head = out@;
    if let Some(vol) = meta.volume {
        write_volume_rows(out, vol);
    }
    let ghost mid = out@;
    write_indexed_row(out, tree, root, root_size);
    let ghost mid2 = out@;
    if let Some(vol) = meta.volume {
        write_shortfall(out, vol, root_size);
    }
    proof {
        let vr = match meta.volume {
            Some(v) => volume_rows(v),
            None => Seq::empty(),
        };
        let sn = match meta.volume {
            Some(v) => shortfall_note(v, root_size),
            None => Seq::empty(),
        };
        assert(mid =~= head + vr);
        assert(final(out)@ =~= mid2 + sn);
        assert(summary_text(tree, root as int, meta, root_size) =~= "| | |\n|---|---|\n"@
            + "| **Scanned** | "@ + meta.scanned_at@ + " |\n"@ + "| **Engine** | "@ + meta.engine@
            + " · "@ + meta.duration@ + " |\n"@ + vr + indexed_row(tree, root as int, root_size)
            + sn);
        assert(final(out)@ =~= old(out)@ + summary_text(tree, root as int, meta, root_size));
    }
}

/// A walk that starts at a directory counts it.
proof fn lemma_dir_count_root(t: &Tree, s: Seq<NodeId>)
    requires
        s.len() >= 1,
        t.is_dir_at(s[0] as int),
    ensures
        dir_count(t, s) >= 1,
    decreases s.len(),
{
    if s.len() > 1 {
        assert(s.drop_last()[0] == s[0]);
        lemma_dir_count_root(t, s.drop_last());
    } else {
        assert(s.drop_last().len() == 0);
        assert(dir_count(t, s.drop_last()) == 0);
        assert(s.last() == s[0]);
    }
}

proof fn lemma_dir_count_nonneg(t: &Tree, s: Seq<NodeId>)
    ensures
        dir_count(t, s) >= 0,
    decreases s.len(),
{
    if s.len() > 0 {
        lemma_dir_count_nonneg(t, s.drop_last());
    }
}


// ---------------------------------------------------------------------
// Folder tree section
// ---------------------------------------------------------------------

/// One row of the folder tree, as text.
pub struct RowText {
    pub label: Seq<char>,
    pub size: Seq<char>,
    pub pct: Seq<char>,
    pub count: Seq<char>,
}

/// One row of the folder tree.
pub struct Row {
    pub label: String,
    pub size_str: String,
    pub pct_str: String,
    pub count_str: String,
}

impl View for Row {
    type V = RowText;

    open spec fn view(&self) -> RowText {
        RowText { label: self.label@, size: self.size_str@, pct: self.pct_str@, count: self.count_str@ }
    }
}

/// The rows as text.
pub open spec fn rows_text(rows: Seq<Row>) -> Seq<RowText> {
    rows.map_values(|r: Row| r@)
}

/// The row of `node`, drawn under `prefix` with a branch that ends here
/// when `is_last`; the root row has no branch and states its file count.
pub open spec fn node_row(
    t: &Tree,
    node: int,
    prefix: Seq<char>,
    is_last: bool,
    is_root: bool,
    o: ExportOptions,
    root_size: u64,
) -> RowText {
    let size = size_in(t, node, o.use_alloc);
    RowText {
        label: if is_root {
            t.name_at(node)
        } else {
            prefix + if is_last {
                "└── "@
            } else {
                "├── "@
            } + t.name_at(node)
        },
        size: bytes_text(size as nat),
        pct: percent_text(size as nat, root_size as nat),
        count: if t.is_dir_at(node) {
            let n = grouped(decimal(t.files_at(node) as nat));
            if is_root {
                n + " files"@
            } else {
                n
            }
        } else {
            Seq::empty()
        },
    }
}

/// The nodes of `s` that the tree section shows: directories, and files
/// when files are included, at or above the minimum size.
pub open spec fn kept_children(t: &Tree, s: Seq<NodeId>, o: ExportOptions) -> Seq<NodeId>
    decreases s.len(),
{
    if s.len() == 0 {
        Seq::empty()
    } else {
        let rest = kept_children(t, s.drop_last(), o);
        let c = s.last() as int;
        if (o.include_files || t.is_dir_at(c)) && size_in(t, c, o.use_alloc) >= o.min_size {
            rest.push(s.last())
        } else {
            rest
        }
    }
}

/// The sort keys of the children `f`: their sizes when sorting by size.
pub open spec fn child_keys(t: &Tree, f: Seq<NodeId>, o: ExportOptions) -> Seq<u64> {
    Seq::new(
        f.len(),
        |i: int|
            if o.sort_by == SortBy::Size {
                size_in(t, f[i] as int, o.use_alloc)
            } else {
                0
            },
    )
}

/// The names of the children `f`, when sorting by name.
pub open spec fn child_names(t: &Tree, f: Seq<NodeId>, o: ExportOptions) -> Seq<Seq<char>> {
    if o.sort_by == SortBy::Name {
        Seq::new(f.len(), |i: int| t.name_at(f[i] as int))
    } else {
        Seq::empty()
    }
}

/// The shown children of `node` in display order: largest first, or by
/// name.
pub open spec fn child_order(t: &Tree, node: int, o: ExportOptions) -> Seq<NodeId> {
    let f = kept_children(t, t.kids(node), o);
    let tie = if o.sort_by == SortBy::Size {
        TieBreak::Stable
    } else {
        TieBreak::NameAsc
    };
    ranked(f.len() as int, child_keys(t, f, o), Seq::empty(), child_names(t, f, o), tie).map_values(
        |p: int| f[p],
    )
}

/// How many of `n` children are drawn before the rest collapse.
pub open spec fn shown_count(n: int, top_n: Option<u32>) -> int {
    match top_n {
        Some(k) => if (k as int) < n {
            k as int
        } else {
            n
        },
        None => n,
    }
}

/// The row that stands for the children `rest` that are not drawn.
pub open spec fn more_row(t: &Tree, rest: Seq<NodeId>, prefix: Seq<char>, o: ExportOptions, root_size: u64) -> RowText {
    let total = sum_vals(rest, sizes_in(t, o.use_alloc));
    RowText {
        label: prefix + "└── … "@ + decimal(rest.len()) + " more "@ + if rest.len() == 1 {
            "item"@
        } else {
            "items"@
        },
        size: bytes_text(total as nat),
        pct: percent_text(total as nat, root_size as nat),
        count: Seq::empty(),
    }
}

/// The rows of `node` and, depth and size filters permitting, of what is
/// below it. `fuel` bounds the recursion; the tree's depth never uses it up.
pub open spec fn walk_rows(
    t: &Tree,
    node: int,
    depth: int,
    prefix: Seq<char>,
    is_last: bool,
    is_root: bool,
    o: ExportOptions,
    root_size: u64,
    fuel: nat,
) -> Seq<RowText>
    decreases fuel, 0nat,
{
    let row = node_row(t, node, prefix, is_last, is_root, o, root_size);
    if fuel == 0 || !t.is_dir_at(node) || (o.max_depth.is_some() && depth >= o.max_depth.unwrap()) {
        seq![row]
    } else {
        let cp = if is_root {
            Seq::empty()
        } else {
            prefix + if is_last {
                "    "@
            } else {
                "│   "@
            }
        };
        let kids = child_order(t, node, o);
        let split = shown_count(kids.len() as int, o.top_n);
        let vis = kids.take(split);
        let rest = kids.skip(split);
        seq![row] + child_rows(
            t,
            vis,
            vis.len() as int,
            rest.len() == 0,
            depth + 1,
            cp,
            o,
            root_size,
            (fuel - 1) as nat,
        ) + if rest.len() > 0 {
            seq![more_row(t, rest, cp, o, root_size)]
        } else {
            Seq::empty()
        }
    }
}

/// Collapsing children loses none: of a folder's shown children, the
/// first `top_n` (or all) are drawn and the rest are the `… N more` row,
/// together each child once, and that row's total is the bytes of the
/// children it stands for.
pub proof fn law_elision_accounts_for_every_child(t: &Tree, node: int, o: ExportOptions)
    requires
        t.wf(),
        0 <= node < t.node_total(),
    ensures
        ({
            let kids = child_order(t, node, o);
            let split = shown_count(kids.len() as int, o.top_n);
            let vis = kids.take(split);
            let rest = kids.skip(split);
            &&& 0 <= split <= kids.len()
            &&& (o.top_n matches Some(k) ==> split <= k)
            &&& (o.top_n is None ==> rest.len() == 0)
            &&& vis + rest == kids
            &&& kids.no_duplicates()
            &&& sum_vals(kids, sizes_in(t, o.use_alloc)) == sum_vals(vis, sizes_in(t, o.use_alloc)) + sum_vals(
                rest,
                sizes_in(t, o.use_alloc),
            )
        }),
{
    lemma_child_order(t, node, o);
    let kids = child_order(t, node, o);
    let split = shown_count(kids.len() as int, o.top_n);
    assert(kids.take(split) + kids.skip(split) =~= kids);
    crate::tree::lemma_sum_vals_concat(kids.take(split), kids.skip(split), sizes_in(t, o.use_alloc));
}

/// The rows of the first `k` of the drawn children `vis`.
pub open spec fn child_rows(
    t: &Tree,
    vis: Seq<NodeId>,
    k: int,
    rest_empty: bool,
    depth: int,
    prefix: Seq<char>,
    o: ExportOptions,
    root_size: u64,
    fuel: nat,
) -> Seq<RowText>
    decreases fuel, k + 1,
{
    if k <= 0 || k > vis.len() {
        Seq::empty()
    } else {
        child_rows(t, vis, k - 1, rest_empty, depth, prefix, o, root_size, fuel) + walk_rows(
            t,
            vis[k - 1] as int,
            depth,
            prefix,
            rest_empty && k == vis.len(),
            false,
            o,
            root_size,
            fuel,
        )
    }
}

pub(crate) proof fn lemma_kept_children(t: &Tree, s: Seq<NodeId>, o: ExportOptions)
    ensures
        forall|k: int|
            0 <= k < kept_children(t, s, o).len() ==> s.contains(#[trigger] kept_children(t, s, o)[k]),
        s.no_duplicates() ==> kept_children(t, s, o).no_duplicates(),
        kept_children(t, s, o).len() <= s.len(),
    decreases s.len(),
{
    if s.len() > 0 {
        let rest = s.drop_last();
        lemma_kept_children(t, rest, o);
        let kr = kept_children(t, rest, o);
        let kc = kept_children(t, s, o);
        assert forall|k: int| 0 <= k < kc.len() implies s.contains(#[trigger] kc[k]) by {
            if k < kr.len() {
                assert(kc[k] == kr[k]);
                let j = choose|j: int| 0 <= j < rest.len() && rest[j] == kr[k];
                assert(s[j] == rest[j]);
            } else {
                assert(s[s.len() - 1] == s.last());
            }
        }
        if s.no_duplicates() {
            assert(rest.no_duplicates()) by {
                assert forall|i: int, j: int| 0 <= i < rest.len() && 0 <= j < rest.len() && i != j implies rest[i] != rest[j] by {
                    assert(rest[i] == s[i]);
                    assert(rest[j] == s[j]);
                }
            }
            assert forall|k: int| 0 <= k < kr.len() implies kr[k] != s.last() by {
                let j = choose|j: int| 0 <= j < rest.len() && rest[j] == kr[k];
                assert(s[j] == rest[j]);
                assert(s[s.len() - 1] == s.last());
            }
        }
    }
}

/// Facts about the shown children of a node: distinct children of it.
pub(crate) proof fn lemma_child_order(t: &Tree, node: int, o: ExportOptions)
    requires
        t.wf(),
        0 <= node < t.node_total(),
    ensures
        child_order(t, node, o).no_duplicates(),
        forall|k: int|
            0 <= k < child_order(t, node, o).len() ==> t.kids(node).contains(
                #[trigger] child_order(t, node, o)[k],
            ),
        forall|k: int|
            0 <= k < child_order(t, node, o).len() ==> 1 <= #[trigger] child_order(t, node, o)[k]
                < t.node_total() && t.parent_at(child_order(t, node, o)[k] as int) == node,
{
    let kids = t.kids(node);
    assert forall|c: int| 0 <= c <= u32::MAX implies (kids.contains(c as NodeId) <==> (1 <= c
        < t.node_total() && t.parent_at(c) == node)) by {
        t.law_children_are_the_nodes_naming_the_parent(node, c);
    }
    t.law_children_are_the_nodes_naming_the_parent(node, 0);
    assert(kids.no_duplicates()) by {
        assert forall|i: int, j: int| 0 <= i < kids.len() && 0 <= j < kids.len() && i != j implies kids[i] != kids[j] by {
            if i < j {
            } else {
            }
        }
    }
    lemma_kept_children(t, kids, o);
    let f = kept_children(t, kids, o);
    let tie = if o.sort_by == SortBy::Size {
        TieBreak::Stable
    } else {
        TieBreak::NameAsc
    };
    let r = ranked(f.len() as int, child_keys(t, f, o), Seq::empty(), child_names(t, f, o), tie);
    lemma_ranked_perm(f.len() as int, child_keys(t, f, o), Seq::empty(), child_names(t, f, o), tie);
    let co = child_order(t, node, o);
    assert(co == r.map_values(|p: int| f[p]));
    assert forall|k: int| 0 <= k < co.len() implies kids.contains(#[trigger] co[k]) by {
        assert(co[k] == f[r[k]]);
    }
    assert forall|i: int, j: int| 0 <= i < co.len() && 0 <= j < co.len() && i != j implies co[i] != co[j] by {
        assert(co[i] == f[r[i]]);
        assert(co[j] == f[r[j]]);
    }
    assert forall|k: int| 0 <= k < co.len() implies 1 <= #[trigger] co[k] < t.node_total() && t.parent_at(co[k] as int) == node by {
        assert(kids.contains(co[k]));
        t.law_children_are_the_nodes_naming_the_parent(node, co[k] as int);
    }
}

/// The shown children of `node`, in display order.
pub(crate) fn ordered_children(tree: &Tree, node: NodeId, opts: &ExportOptions) -> (out: Vec<NodeId>)
    requires
        tree.wf(),
        node < tree.node_total(),
    ensures
        out@ == child_order(tree, node as int, *opts),
{
    let kids = tree.children(node);
    let mut kept: Vec<NodeId> = Vec::new();
    let mut i: usize = 0;
    while i < kids.len()
        invariant
            tree.wf(),
            kids@ == tree.kids(node as int),
            forall|k: int| 0 <= k < kids@.len() ==> #[trigger] kids@[k] < tree.node_total(),
            i <= kids@.len(),
            kept@ == kept_children(tree, kids@.take(i as int), *opts),
        decreases kids@.len() - i,
    {
        let c = kids[i];
        proof {
            assert(kids@.take(i + 1).drop_last() =~= kids@.take(i as int));
            assert(kids@.take(i + 1).last() == c);
        }
        if (opts.include_files || tree.is_dir(c)) && size_of(tree, c, opts) >= opts.min_size {
            kept.push(c);
        }
        i = i + 1;
    }
    proof {
        assert(kids@.take(kids@.len() as int) =~= kids@);
        lemma_kept_children(tree, kids@, *opts);
    }
    let ghost f = kept@;
    let mut keys: Vec<u64> = Vec::new();
    let mut names: Vec<Vec<char>> = Vec::new();
    let by_name = match opts.sort_by {
        SortBy::Name => true,
        SortBy::Size => false,
    };
    let mut j: usize = 0;
    while j < kept.len()
        invariant
            tree.wf(),
            f == kept@,
            forall|k: int| 0 <= k < f.len() ==> kids@.contains(#[trigger] f[k]),
            kids@ == tree.kids(node as int),
            forall|k: int| 0 <= k < kids@.len() ==> #[trigger] kids@[k] < tree.node_total(),
            by_name == (opts.sort_by == SortBy::Name),
            j <= f.len(),
            keys@ == child_keys(tree, f, *opts).take(j as int),
            by_name ==> names@.map_values(|v: Vec<char>| v@) == child_names(tree, f, *opts).take(j as int),
            !by_name ==> names@.len() == 0,
        decreases f.len() - j,
    {
        let c = kept[j];
        proof {
            let k = choose|k: int| 0 <= k < kids@.len() && kids@[k] == c;
        }
        if by_name {
            names.push(chars_of(tree.name(c)));
            keys.push(0);
        } else {
            keys.push(size_of(tree, c, opts));
        }
        proof {
            assert(keys@ =~= child_keys(tree, f, *opts).take(j + 1));
            if by_name {
                assert(names@.map_values(|v: Vec<char>| v@) =~= child_names(tree, f, *opts).take(j + 1));
            }
        }
        j = j + 1;
    }
    proof {
        assert(keys@ =~= child_keys(tree, f, *opts));
        if by_name {
            assert(names@.map_values(|v: Vec<char>| v@) =~= child_names(tree, f, *opts));
        } else {
            assert(names@.map_values(|v: Vec<char>| v@) =~= child_names(tree, f, *opts));
        }
    }
    let tie = if by_name {
        TieBreak::NameAsc
    } else {
        TieBreak::Stable
    };
    let no_second: Vec<u64> = Vec::new();
    let order = rank_positions(keys.as_slice(), no_second.as_slice(), &names, tie);
    let mut out: Vec<NodeId> = Vec::new();
    let mut m: usize = 0;
    let ghost r = order@.map_values(|p: usize| p as int);
    while m < order.len()
        invariant
            f == kept@,
            order@.len() == f.len(),
            forall|k: int| 0 <= k < order@.len() ==> #[trigger] order@[k] < f.len(),
            r == order@.map_values(|p: usize| p as int),
            m <= order@.len(),
            out@ == r.take(m as int).map_values(|p: int| f[p]),
        decreases order@.len() - m,
    {
        out.push(kept[order[m]]);
        proof {
            assert(out@ =~= r.take(m + 1).map_values(|p: int| f[p]));
        }
        m = m + 1;
    }
    proof {
        assert(r.take(r.len() as int) =~= r);
        assert(no_second@ =~= Seq::<u64>::empty());
    }
    out
}

fn make_row(
    tree: &Tree,
    node: NodeId,
    prefix: &str,
    is_last: bool,
    is_root: bool,
    opts: &ExportOptions,
    root_size: u64,
) -> (r: Row)
    requires
        tree.wf(),
        node < tree.node_total(),
    ensures
        r@ == node_row(tree, node as int, prefix@, is_last, is_root, *opts, root_size),
{
    proof {
        reveal_strlit("└── ");
        reveal_strlit("├── ");
        reveal_strlit(" files");
    }
    let size = size_of(tree, node, opts);
    let label = if is_root {
        String::from_str(tree.name(node))
    } else {
        let mut l = String::from_str(prefix);
        if is_last {
            l.append("└── ");
        } else {
            l.append("├── ");
        }
        l.append(tree.name(node));
        l
    };
    let count_str = if tree.is_dir(node) {
        let mut n = count(tree.file_count(node) as u64);
        if is_root {
            n.append(" files");
        }
        n
    } else {
        String::new()
    };
    let r = Row { label, size_str: bytes(size), pct_str: percent(size, root_size), count_str };
    proof {
        assert(r@.label =~= node_row(tree, node as int, prefix@, is_last, is_root, *opts, root_size).label);
        assert(r@.count =~= node_row(tree, node as int, prefix@, is_last, is_root, *opts, root_size).count);
    }
    r
}

fn make_more_row(
    tree: &Tree,
    rest: &[NodeId],
    node: NodeId,
    prefix: &str,
    opts: &ExportOptions,
    root_size: u64,
) -> (r: Row)
    requires
        tree.wf(),
        node < tree.node_total(),
        rest@.no_duplicates(),
        forall|k: int| 0 <= k < rest@.len() ==> tree.kids(node as int).contains(#[trigger] rest@[k]),
        forall|k: int| 0 <= k < rest@.len() ==> #[trigger] rest@[k] < tree.node_total(),
    ensures
        r@ == more_row(tree, rest@, prefix@, *opts, root_size),
{
    proof {
        reveal_strlit("└── … ");
        reveal_strlit(" more ");
        reveal_strlit("item");
        reveal_strlit("items");
    }
    let ghost sz = sizes_in(tree, opts.use_alloc);
    proof {
        tree.law_rollup(node as int);
        lemma_sum_vals_subset(rest@, tree.kids(node as int), sz);
        crate::tree::lemma_sum_vals_nonneg(rest@, sz);
    }
    let mut total: u64 = 0;
    let mut i: usize = 0;
    while i < rest.len()
        invariant
            tree.wf(),
            sz == sizes_in(tree, opts.use_alloc),
            forall|k: int| 0 <= k < rest@.len() ==> #[trigger] rest@[k] < tree.node_total(),
            sum_vals(rest@, sz) <= u64::MAX,
            i <= rest@.len(),
            total == sum_vals(rest@.take(i as int), sz),
        decreases rest@.len() - i,
    {
        proof {
            assert(rest@.take(i + 1).drop_last() =~= rest@.take(i as int));
            assert(rest@.take(i + 1).last() == rest@[i as int]);
            lemma_sum_vals_prefix(rest@, i + 1, sz);
            tree.lemma_seqs_agree(rest@[i as int] as int);
        }
        total = total + size_of(tree, rest[i], opts);
        i = i + 1;
    }
    proof {
        assert(rest@.take(rest@.len() as int) =~= rest@);
    }
    let mut label = String::from_str(prefix);
    label.append("└── … ");
    label.append(decimal_string(rest.len() as u64).as_str());
    label.append(" more ");
    if rest.len() == 1 {
        label.append("item");
    } else {
        label.append("items");
    }
    let r = Row { label, size_str: bytes(total), pct_str: percent(total, root_size), count_str: String::new() };
    proof {
        assert(r@.label =~= more_row(tree, rest@, prefix@, *opts, root_size).label);
    }
    r
}

/// Appends the rows of `node` and what is below it.
fn walk(
    tree: &Tree,
    node: NodeId,
    depth: u64,
    prefix: &str,
    is_last: bool,
    is_root: bool,
    opts: &ExportOptions,
    root_size: u64,
    rows: &mut Vec<Row>,
    Ghost(fuel): Ghost<nat>,
)
    requires
        tree.wf(),
        node < tree.node_total(),
        fuel + tree.rank_at(node as int) >= tree.node_total() + 1,
        depth <= tree.rank_at(node as int),
    ensures
        rows_text(final(rows)@) == rows_text(old(rows)@) + walk_rows(
            tree,
            node as int,
            depth as int,
            prefix@,
            is_last,
            is_root,
            *opts,
            root_size,
            fuel,
        ),
    decreases fuel,
{
    proof {
        reveal_strlit("    ");
        reveal_strlit("│   ");
        tree.law_rank_bounded(node as int);
    }
    let ghost before = rows_text(rows@);
    let row = make_row(tree, node, prefix, is_last, is_root, opts, root_size);
    rows.push(row);
    proof {
        assert(rows_text(rows@) =~= before.push(node_row(tree, node as int, prefix@, is_last, is_root, *opts, root_size)));
    }
    if !tree.is_dir(node) {
        proof {
            assert(rows_text(rows@) =~= before + walk_rows(tree, node as int, depth as int, prefix@, is_last, is_root, *opts, root_size, fuel));
        }
        return;
    }
    match opts.max_depth {
        Some(m) => {
            if depth >= m as u64 {
                proof {
                    assert(rows_text(rows@) =~= before + walk_rows(tree, node as int, depth as int, prefix@, is_last, is_root, *opts, root_size, fuel));
                }
                return;
            }
        },
        None => {},
    }
    let child_prefix = if is_root {
        String::new()
    } else {
        let mut p = String::from_str(prefix);
        if is_last {
            p.append("    ");
        } else {
            p.append("│   ");
        }
        p
    };
    let kids = ordered_children(tree, node, opts);
    proof {
        lemma_child_order(tree, node as int, *opts);
    }
    let n = kids.len();
    let split: usize = match opts.top_n {
        Some(k) => if (k as usize) < n {
            k as usize
        } else {
            n
        },
        None => n,
    };
    let vis = vstd::slice::slice_subrange(kids.as_slice(), 0, split);
    let rest = vstd::slice::slice_subrange(kids.as_slice(), split, n);
    let ghost f1 = (fuel - 1) as nat;
    let ghost cp = child_prefix@;
    let ghost head = rows_text(rows@);
    proof {
        assert(vis@ =~= kids@.take(split as int));
        assert(rest@ =~= kids@.skip(split as int));
        assert(head =~= before.push(node_row(tree, node as int, prefix@, is_last, is_root, *opts, root_size)));
    }
    let mut i: usize = 0;
    while i < split
        invariant
            tree.wf(),
            node < tree.node_total(),
            fuel + tree.rank_at(node as int) >= tree.node_total() + 1,
            depth <= tree.rank_at(node as int),
            tree.rank_at(node as int) <= tree.node_total(),
            tree.node_total() <= u32::MAX + 1,
            kids@ == child_order(tree, node as int, *opts),
            forall|k: int| 0 <= k < kids@.len() ==> 1 <= #[trigger] kids@[k] < tree.node_total() && tree.parent_at(kids@[k] as int) == node,
            vis@ == kids@.take(split as int),
            rest@ == kids@.skip(split as int),
            split <= n == kids@.len(),
            f1 == fuel - 1,
            cp == child_prefix@,
            i <= split,
            rows_text(rows@) == head + child_rows(tree, vis@, i as int, rest@.len() == 0, depth + 1, cp, *opts, root_size, f1),
        decreases split - i,
    {
        let child = vis[i];
        let last_here = rest.len() == 0 && i + 1 == split;
        proof {
            assert(child == kids@[i as int]);
            tree.law_parents_rank_below_children(child as int);
        }
        walk(tree, child, depth + 1, child_prefix.as_str(), last_here, false, opts, root_size, rows, Ghost(f1));
        i = i + 1;
    }
    let ghost mid = rows_text(rows@);
    if rest.len() > 0 {
        proof {
            assert forall|k: int| 0 <= k < rest@.len() implies tree.kids(node as int).contains(#[trigger] rest@[k]) by {
                assert(rest@[k] == kids@[split + k]);
            }
            assert(rest@.no_duplicates()) by {
                assert forall|a: int, b: int| 0 <= a < rest@.len() && 0 <= b < rest@.len() && a != b implies rest@[a] != rest@[b] by {
                    assert(rest@[a] == kids@[split + a]);
                    assert(rest@[b] == kids@[split + b]);
                }
            }
            assert forall|k: int| 0 <= k < rest@.len() implies #[trigger] rest@[k] < tree.node_total() by {
                assert(rest@[k] == kids@[split + k]);
            }
        }
        let more = make_more_row(tree, rest, node, child_prefix.as_str(), opts, root_size);
        rows.push(more);
        proof {
            assert(rows_text(rows@) =~= mid.push(more_row(tree, rest@, cp, *opts, root_size)));
        }
    }
    proof {
        assert(split as int == shown_count(kids@.len() as int, opts.top_n));
        assert(rows_text(rows@) =~= before + walk_rows(tree, node as int, depth as int, prefix@, is_last, is_root, *opts, root_size, fuel));
    }
}

/// The text of column `which` (0 label, 1 size, 2 percentage) of a row.
pub open spec fn column(r: RowText, which: int) -> Seq<char> {
    if which == 0 {
        r.label
    } else if which == 1 {
        r.size
    } else {
        r.pct
    }
}

/// The widest entry of column `which`, in characters (0 for no rows).
pub open spec fn max_width(rows: Seq<RowText>, which: int) -> int
    decreases rows.len(),
{
    if rows.len() == 0 {
        0
    } else {
        let w = max_width(rows.drop_last(), which);
        let l = column(rows.last(), which).len() as int;
        if l > w {
            l
        } else {
            w
        }
    }
}

/// One line of the tree section: the label left-aligned, size and
/// percentage right-aligned, then the file count. A row with no count
/// carries no trailing spaces.
pub open spec fn tree_line(r: RowText, nw: int, sw: int, pw: int) -> Seq<char> {
    pad_right(r.label, nw) + "  "@ + pad_left(r.size, sw) + "  "@ + pad_left(r.pct, pw) + if r.count.len()
        == 0 {
        Seq::empty()
    } else {
        "  "@ + r.count
    } + "\n"@
}

/// The lines of the rows.
pub open spec fn tree_lines(rows: Seq<RowText>, nw: int, sw: int, pw: int) -> Seq<char>
    decreases rows.len(),
{
    if rows.len() == 0 {
        Seq::empty()
    } else {
        tree_lines(rows.drop_last(), nw, sw, pw) + tree_line(rows.last(), nw, sw, pw)
    }
}

/// The rows of the tree section.
pub open spec fn tree_rows(t: &Tree, root: int, root_size: u64, o: ExportOptions) -> Seq<RowText> {
    walk_rows(t, root, 0, Seq::empty(), true, true, o, root_size, (t.node_total() + 1) as nat)
}

/// The folder tree section.
pub open spec fn tree_section_text(t: &Tree, root: int, root_size: u64, o: ExportOptions) -> Seq<char> {
    let rows = tree_rows(t, root, root_size, o);
    "## Folder tree\n\n```text\n"@ + tree_lines(rows, max_width(rows, 0), max_width(rows, 1), max_width(rows, 2))
        + "```\n\n"@
}

fn widest(rows: &Vec<Row>, which: usize) -> (w: usize)
    requires
        which <= 2,
    ensures
        w == max_width(rows_text(rows@), which as int),
{
    let mut w: usize = 0;
    let mut i: usize = 0;
    while i < rows.len()
        invariant
            which <= 2,
            i <= rows@.len(),
            w == max_width(rows_text(rows@).take(i as int), which as int),
        decreases rows@.len() - i,
    {
        let r = &rows[i];
        let l = if which == 0 {
            char_count(r.label.as_str())
        } else if which == 1 {
            char_count(r.size_str.as_str())
        } else {
            char_count(r.pct_str.as_str())
        };
        proof {
            assert(rows_text(rows@).take(i + 1).drop_last() =~= rows_text(rows@).take(i as int));
            assert(rows_text(rows@).take(i + 1).last() == rows@[i as int]@);
        }
        if l > w {
            w = l;
        }
        i = i + 1;
    }
    proof {
        assert(rows_text(rows@).take(rows@.len() as int) =~= rows_text(rows@));
    }
    w
}

fn write_tree_line(out: &mut String, r: &Row, name_w: usize, size_w: usize, pct_w: usize)
    ensures
        final(out)@ == old(out)@ + tree_line(r@, name_w as int, size_w as int, pct_w as int),
{
    proof {
        reveal_strlit("  ");
        reveal_strlit("\n");
    }
    push_pad_right(out, r.label.as_str(), name_w);
    out.append("  ");
    push_pad_left(out, r.size_str.as_str(), size_w);
    out.append("  ");
    push_pad_left(out, r.pct_str.as_str(), pct_w);
    let ghost m1 = out@;
    if !r.count_str.as_str().is_empty() {
        out.append("  ");
        out.append(r.count_str.as_str());
    }
    let ghost m2 = out@;
    out.append("\n");
    proof {
        assert(m2 =~= m1 + if r@.count.len() == 0 { Seq::<char>::empty() } else { "  "@ + r@.count });
        assert(final(out)@ =~= old(out)@ + tree_line(r@, name_w as int, size_w as int, pct_w as int));
    }
}

fn write_tree_section(out: &mut String, tree: &Tree, root: NodeId, root_size: u64, opts: &ExportOptions)
    requires
        tree.wf(),
        root < tree.node_total(),
    ensures
        final(out)@ == old(out)@ + tree_section_text(tree, root as int, root_size, *opts),
{
    proof {
        reveal_strlit("");
        reveal_strlit("  ");
        reveal_strlit("\n");
        reveal_strlit("## Folder tree\n\n```text\n");
        reveal_strlit("```\n\n");
        tree.law_rank_bounded(root as int);
    }
    let mut rows: Vec<Row> = Vec::new();
    walk(tree, root, 0, "", true, true, opts, root_size, &mut rows, Ghost((tree.node_total() + 1) as nat));
    let ghost rt = rows_text(rows@);
    proof {
        assert(rows_text(Seq::<Row>::empty()) =~= Seq::<RowText>::empty());
        assert(rt =~= tree_rows(tree, root as int, root_size, *opts));
    }
    let name_w = widest(&rows, 0);
    let size_w = widest(&rows, 1);
    let pct_w = widest(&rows, 2);
    out.append("## Folder tree\n\n```text\n");
    let ghost head = out@;
    let mut i: usize = 0;
    while i < rows.len()
        invariant
            rt == rows_text(rows@),
            i <= rows@.len(),
            out@ == head + tree_lines(rt.take(i as int), name_w as int, size_w as int, pct_w as int),
        decreases rows@.len() - i,
    {
        let r = &rows[i];
        write_tree_line(out, r, name_w, size_w, pct_w);
        proof {
            assert(rt.take(i + 1).drop_last() =~= rt.take(i as int));
            assert(rt.take(i + 1).last() == r@);
        }
        i = i + 1;
    }
    out.append("```\n\n");
    proof {
        assert(rt.take(rt.len() as int) =~= rt);
        assert(final(out)@ =~= old(out)@ + tree_section_text(tree, root as int, root_size, *opts));
    }
}

// ---------------------------------------------------------------------
// Ranking tables
// ---------------------------------------------------------------------

/// The nodes of `s` other than `root` that are folders (when `folders`)
/// or files.
pub open spec fn rank_candidates(t: &Tree, s: Seq<NodeId>, root: int, folders: bool) -> Seq<NodeId>
    decreases s.len(),
{
    if s.len() == 0 {
        Seq::empty()
    } else {
        let rest = rank_candidates(t, s.drop_last(), root, folders);
        let x = s.last() as int;
        if x != root && t.is_dir_at(x) == folders {
            rest.push(s.last())
        } else {
            rest
        }
    }
}

/// The largest folders (by subtree size) or files under `root`, root
/// itself excluded, at most the configured number, largest first; equal
/// sizes go to the higher node id.
pub open spec fn largest_items(t: &Tree, root: int, o: ExportOptions, folders: bool) -> Seq<NodeId> {
    let cap = if folders {
        o.largest_folders
    } else {
        o.largest_files
    };
    let c = rank_candidates(t, t.subtree_order(root), root, folders);
    let keys = Seq::new(c.len(), |i: int| size_in(t, c[i] as int, o.use_alloc));
    let second = Seq::new(c.len(), |i: int| c[i] as u64);
    let r = ranked(c.len() as int, keys, second, Seq::empty(), TieBreak::SecondDesc).map_values(
        |p: int| c[p],
    );
    r.take(if (cap as int) < r.len() {
        cap as int
    } else {
        r.len() as int
    })
}

proof fn lemma_rank_candidates(t: &Tree, s: Seq<NodeId>, root: int, folders: bool)
    ensures
        forall|x: NodeId|
            rank_candidates(t, s, root, folders).contains(x) <==> (s.contains(x) && x as int != root
                && t.is_dir_at(x as int) == folders),
        s.no_duplicates() ==> rank_candidates(t, s, root, folders).no_duplicates(),
    decreases s.len(),
{
    if s.len() > 0 {
        let d = s.drop_last();
        lemma_rank_candidates(t, d, root, folders);
        let rest = rank_candidates(t, d, root, folders);
        let f = rank_candidates(t, s, root, folders);
        assert forall|x: NodeId| f.contains(x) <==> (s.contains(x) && x as int != root && t.is_dir_at(x as int)
            == folders) by {
            if f.contains(x) {
                let k = choose|k: int| 0 <= k < f.len() && f[k] == x;
                if k < rest.len() {
                    assert(rest[k] == x);
                    assert(rest.contains(x));
                    assert(d.contains(x));
                    let j = choose|j: int| 0 <= j < d.len() && d[j] == x;
                    assert(s[j] == x);
                } else {
                    assert(s[s.len() - 1] == x);
                }
            }
            if s.contains(x) && x as int != root && t.is_dir_at(x as int) == folders {
                let j = choose|j: int| 0 <= j < s.len() && s[j] == x;
                if j < d.len() {
                    assert(d[j] == x);
                    assert(d.contains(x));
                    assert(rest.contains(x));
                    let k = choose|k: int| 0 <= k < rest.len() && rest[k] == x;
                    assert(f[k] == x);
                } else {
                    assert(f[f.len() - 1] == x);
                }
            }
        }
        if s.no_duplicates() {
            assert(d.no_duplicates()) by {
                assert forall|i: int, j: int| 0 <= i < d.len() && 0 <= j < d.len() && i != j implies d[i] != d[j] by {
                    assert(d[i] == s[i] && d[j] == s[j]);
                }
            }
            let y = s.last();
            if y as int != root && t.is_dir_at(y as int) == folders {
                assert(!rest.contains(y)) by {
                    if rest.contains(y) {
                        assert(d.contains(y));
                        let j = choose|j: int| 0 <= j < d.len() && d[j] == y;
                        assert(s[j] == s[s.len() - 1]);
                    }
                }
                assert forall|i: int, j: int| 0 <= i < f.len() && 0 <= j < f.len() && i != j implies f[i] != f[j] by {
                    if i < rest.len() && j < rest.len() {
                        assert(f[i] == rest[i] && f[j] == rest[j]);
                    } else if i < rest.len() {
                        assert(f[i] == rest[i]);
                    } else {
                        assert(f[j] == rest[j]);
                    }
                }
            }
        }
    }
}

/// The largest-folders and largest-files tables rank by size alone, with
/// no regard to the minimum size: they hold nodes strictly below `root` of
/// the asked kind, each once, as many as the cap allows, larger first and
/// on equal sizes the higher id first; and no node of that kind left out
/// is larger than one shown.
pub proof fn law_largest_tables_rank_by_size(t: &Tree, root: int, o: ExportOptions, folders: bool)
    requires
        t.wf(),
        0 <= root < t.node_total(),
    ensures
        ({
            let items = largest_items(t, root, o, folders);
            let c = rank_candidates(t, t.subtree_order(root), root, folders);
            let cap = if folders {
                o.largest_folders
            } else {
                o.largest_files
            };
            &&& items.no_duplicates()
            &&& items.len() == if (cap as int) < c.len() {
                cap as int
            } else {
                c.len() as int
            }
            &&& forall|x: NodeId|
                items.contains(x) ==> ((x as int) < t.node_total() && t.is_ancestor(root, x as int) && x as int
                    != root && t.is_dir_at(x as int) == folders)
            &&& forall|i: int, j: int|
                #![trigger items[i], items[j]]
                0 <= i < j < items.len() ==> size_in(t, items[i] as int, o.use_alloc) >= size_in(
                    t,
                    items[j] as int,
                    o.use_alloc,
                ) && (size_in(t, items[i] as int, o.use_alloc) == size_in(t, items[j] as int, o.use_alloc)
                    ==> items[i] > items[j])
            &&& forall|x: NodeId, i: int|
                #![trigger c.contains(x), items[i]]
                c.contains(x) && !items.contains(x) && 0 <= i < items.len() ==> size_in(
                    t,
                    items[i] as int,
                    o.use_alloc,
                ) >= size_in(t, x as int, o.use_alloc)
        }),
{
    let w = t.subtree_order(root);
    t.law_subtree_order_is_distinct(root);
    let c = rank_candidates(t, w, root, folders);
    lemma_rank_candidates(t, w, root, folders);
    let keys = Seq::new(c.len(), |i: int| size_in(t, c[i] as int, o.use_alloc));
    let second = Seq::new(c.len(), |i: int| c[i] as u64);
    let rk = ranked(c.len() as int, keys, second, Seq::empty(), TieBreak::SecondDesc);
    lemma_ranked_perm(c.len() as int, keys, second, Seq::empty(), TieBreak::SecondDesc);
    crate::sort::law_ranked_is_ordered(c.len() as int, keys, second, Seq::empty(), TieBreak::SecondDesc);
    let r = rk.map_values(|p: int| c[p]);
    let items = largest_items(t, root, o, folders);
    let cap = if folders {
        o.largest_folders
    } else {
        o.largest_files
    };
    let m = if (cap as int) < r.len() {
        cap as int
    } else {
        r.len() as int
    };
    assert(items == r.take(m));
    assert forall|i: int, j: int| 0 <= i < items.len() && 0 <= j < items.len() && i != j implies items[i]
        != items[j] by {
        assert(items[i] == c[rk[i]] && items[j] == c[rk[j]]);
    }
    assert forall|x: NodeId| items.contains(x) implies ((x as int) < t.node_total() && t.is_ancestor(root, x as int)
        && x as int != root && t.is_dir_at(x as int) == folders) by {
        let k = choose|k: int| 0 <= k < items.len() && items[k] == x;
        assert(items[k] == c[rk[k]]);
        assert(c.contains(x));
        assert(w.contains(x));
        t.law_subtree_order_is_exactly_the_subtree(root, x as int);
        let j = choose|j: int| 0 <= j < w.len() && w[j] == x;
        assert(w[j] < t.node_total());
    }
    assert forall|i: int, j: int| #![trigger items[i], items[j]] 0 <= i < j < items.len() implies size_in(
        t,
        items[i] as int,
        o.use_alloc,
    ) >= size_in(t, items[j] as int, o.use_alloc) && (size_in(t, items[i] as int, o.use_alloc) == size_in(
        t,
        items[j] as int,
        o.use_alloc,
    ) ==> items[i] > items[j]) by {
        assert(items[i] == c[rk[i]] && items[j] == c[rk[j]]);
        assert(!crate::sort::rank_lt(keys, second, Seq::empty(), TieBreak::SecondDesc, rk[j], rk[i]));
        assert(rk[i] != rk[j]);
        assert(c[rk[i]] != c[rk[j]]);
    }
    assert forall|x: NodeId, i: int| #![trigger c.contains(x), items[i]] c.contains(x) && !items.contains(x) && 0 <= i
        < items.len() implies size_in(t, items[i] as int, o.use_alloc) >= size_in(t, x as int, o.use_alloc) by {
        // `x` is at some position of the full order, past the shown ones.
        let q = choose|q: int| 0 <= q < c.len() && c[q] == x;
        broadcast use vstd::set::group_set_axioms, vstd::seq_lib::seq_to_set_is_finite;
        let all = Seq::new(c.len(), |k: int| k);
        assert forall|y: int| rk.to_set().contains(y) implies all.to_set().contains(y) by {
            let k = choose|k: int| 0 <= k < rk.len() && rk[k] == y;
            assert(all[y] == y);
        }
        rk.unique_seq_to_set();
        all.lemma_cardinality_of_set();
        vstd::set_lib::lemma_len_subset(rk.to_set(), all.to_set());
        vstd::set_lib::lemma_subset_equality(rk.to_set(), all.to_set());
        assert(all[q] == q);
        assert(all.to_set().contains(q));
        assert(rk.to_set().contains(q));
        let j = choose|j: int| 0 <= j < rk.len() && rk[j] == q;
        if j < m {
            assert(items[j] == c[rk[j]]);
            assert(items.contains(x));
        }
        assert(items[i] == c[rk[i]]);
        assert(!crate::sort::rank_lt(keys, second, Seq::empty(), TieBreak::SecondDesc, rk[j], rk[i]));
    }
}

fn largest(tree: &Tree, root: NodeId, opts: &ExportOptions, folders: bool) -> (out: Vec<NodeId>)
    requires
        tree.wf(),
        root < tree.node_total(),
    ensures
        out@ == largest_items(tree, root as int, *opts, folders),
        forall|k: int| 0 <= k < out@.len() ==> #[trigger] out@[k] < tree.node_total(),
{
    let cap = if folders {
        opts.largest_folders
    } else {
        opts.largest_files
    };
    let ids = tree.descendants(root);
    let ghost d = ids@;
    let mut cands: Vec<NodeId> = Vec::new();
    let mut i: usize = 0;
    while i < ids.len()
        invariant
            tree.wf(),
            d == ids@,
            d == tree.subtree_order(root as int),
            forall|k: int| 0 <= k < d.len() ==> #[trigger] d[k] < tree.node_total(),
            i <= d.len(),
            cands@ == rank_candidates(tree, d.take(i as int), root as int, folders),
            forall|k: int| 0 <= k < cands@.len() ==> #[trigger] cands@[k] < tree.node_total(),
        decreases d.len() - i,
    {
        let id = ids[i];
        proof {
            assert(d.take(i + 1).drop_last() =~= d.take(i as int));
            assert(d.take(i + 1).last() == id);
        }
        if id != root && tree.is_dir(id) == folders {
            cands.push(id);
        }
        i = i + 1;
    }
    proof {
        assert(d.take(d.len() as int) =~= d);
    }
    let ghost c = cands@;
    let mut keys: Vec<u64> = Vec::new();
    let mut second: Vec<u64> = Vec::new();
    let mut j: usize = 0;
    while j < cands.len()
        invariant
            tree.wf(),
            c == cands@,
            forall|k: int| 0 <= k < c.len() ==> #[trigger] c[k] < tree.node_total(),
            j <= c.len(),
            keys@ == Seq::new(c.len(), |i: int| size_in(tree, c[i] as int, opts.use_alloc)).take(j as int),
            second@ == Seq::new(c.len(), |i: int| c[i] as u64).take(j as int),
        decreases c.len() - j,
    {
        keys.push(size_of(tree, cands[j], opts));
        second.push(cands[j] as u64);
        proof {
            assert(keys@ =~= Seq::new(c.len(), |i: int| size_in(tree, c[i] as int, opts.use_alloc)).take(j + 1));
            assert(second@ =~= Seq::new(c.len(), |i: int| c[i] as u64).take(j + 1));
        }
        j = j + 1;
    }
    proof {
        assert(keys@ =~= Seq::new(c.len(), |i: int| size_in(tree, c[i] as int, opts.use_alloc)));
        assert(second@ =~= Seq::new(c.len(), |i: int| c[i] as u64));
    }
    let no_names: Vec<Vec<char>> = Vec::new();
    let order = rank_positions(keys.as_slice(), second.as_slice(), &no_names, TieBreak::SecondDesc);
    proof {
        assert(no_names@.map_values(|v: Vec<char>| v@) =~= Seq::<Seq<char>>::empty());
    }
    let ghost r = order@.map_values(|p: usize| p as int);
    let take = if cap < order.len() {
        cap
    } else {
        order.len()
    };
    let mut out: Vec<NodeId> = Vec::new();
    let mut m: usize = 0;
    while m < take
        invariant
            c == cands@,
            forall|k: int| 0 <= k < c.len() ==> #[trigger] c[k] < tree.node_total(),
            order@.len() == c.len(),
            forall|k: int| 0 <= k < order@.len() ==> #[trigger] order@[k] < c.len(),
            r == order@.map_values(|p: usize| p as int),
            take <= order@.len(),
            m <= take,
            out@ == r.take(m as int).map_values(|p: int| c[p]),
            forall|k: int| 0 <= k < out@.len() ==> #[trigger] out@[k] < tree.node_total(),
        decreases take - m,
    {
        out.push(cands[order[m]]);
        proof {
            assert(out@ =~= r.take(m + 1).map_values(|p: int| c[p]));
        }
        m = m + 1;
    }
    proof {
        assert(r.take(take as int).map_values(|p: int| c[p]) =~= r.map_values(|p: int| c[p]).take(take as int));
    }
    out
}

/// `s` with every `|` escaped as `\|`.
pub open spec fn escape_pipes(s: Seq<char>) -> Seq<char>
    decreases s.len(),
{
    if s.len() == 0 {
        Seq::empty()
    } else {
        escape_pipes(s.drop_last()) + if s.last() == '|' {
            seq!['\\', '|']
        } else {
            seq![s.last()]
        }
    }
}

/// `s` as a Markdown inline code span, safe against embedded backticks
/// and pipes.
pub open spec fn code_span_text(s: Seq<char>) -> Seq<char> {
    let e = escape_pipes(s);
    if e.contains('`') {
        "``"@ + e + "``"@
    } else {
        "`"@ + e + "`"@
    }
}

/// Wraps `s` as a Markdown inline code span.
pub fn code_span(s: &str) -> (r: String)
    ensures
        r@ == code_span_text(s@),
{
    proof {
        reveal_strlit("``");
        reveal_strlit("`");
    }
    let cs = chars_of(s);
    let mut e = String::new();
    let mut tick = false;
    let mut i: usize = 0;
    while i < cs.len()
        invariant
            cs@ == s@,
            i <= cs@.len(),
            e@ == escape_pipes(cs@.take(i as int)),
            tick == escape_pipes(cs@.take(i as int)).contains('`'),
        decreases cs@.len() - i,
    {
        let c = cs[i];
        let ghost prev = e@;
        proof {
            assert(cs@.take(i + 1).drop_last() =~= cs@.take(i as int));
            assert(cs@.take(i + 1).last() == c);
        }
        if c == '|' {
            push_char(&mut e, '\\');
            push_char(&mut e, '|');
            proof {
                assert(e@ =~= prev + seq!['\\', '|']);
                if (prev + seq!['\\', '|']).contains('`') {
                    let k = choose|k: int| 0 <= k < (prev + seq!['\\', '|']).len() && (prev + seq!['\\', '|'])[k] == '`';
                    assert(k < prev.len());
                    assert(prev[k] == '`');
                }
            }
        } else {
            push_char(&mut e, c);
            if c == '`' {
                tick = true;
            }
            proof {
                assert(e@ =~= prev + seq![c]);
                if c == '`' {
                    assert(e@[prev.len() as int] == '`');
                }
                if (prev + seq![c]).contains('`') && c != '`' {
                    let k = choose|k: int| 0 <= k < (prev + seq![c]).len() && (prev + seq![c])[k] == '`';
                    assert(k < prev.len());
                    assert(prev[k] == '`');
                }
                if prev.contains('`') {
                    let k = choose|k: int| 0 <= k < prev.len() && prev[k] == '`';
                    assert(e@[k] == '`');
                }
            }
        }
        proof {
            if c == '|' && prev.contains('`') {
                let k = choose|k: int| 0 <= k < prev.len() && prev[k] == '`';
                assert(e@[k] == '`');
            }
        }
        i = i + 1;
    }
    proof {
        assert(cs@.take(cs@.len() as int) =~= cs@);
    }
    if tick {
        let mut r = String::from_str("``");
        r.append(e.as_str());
        r.append("``");
        r
    } else {
        let mut r = String::from_str("`");
        r.append(e.as_str());
        r.append("`");
        r
    }
}

/// One table line: the cells joined by ` | ` between pipes.
pub open spec fn cells_line(cells: Seq<Seq<char>>) -> Seq<char> {
    "| "@ + join(cells, " | "@) + " |\n"@
}

/// `s` repeated `n` times.
pub open spec fn repeat_text(s: Seq<char>, n: int) -> Seq<char>
    decreases n,
{
    if n <= 0 {
        Seq::empty()
    } else {
        repeat_text(s, n - 1) + s
    }
}

/// The body lines of a table.
pub open spec fn body_lines(rows: Seq<Seq<Seq<char>>>) -> Seq<char>
    decreases rows.len(),
{
    if rows.len() == 0 {
        Seq::empty()
    } else {
        body_lines(rows.drop_last()) + cells_line(rows.last())
    }
}

/// A titled table; with no rows, one row of dashes.
pub open spec fn table_text(title: Seq<char>, headers: Seq<Seq<char>>, rows: Seq<Seq<Seq<char>>>) -> Seq<char> {
    "## "@ + title + "\n\n"@ + cells_line(headers) + "|"@ + repeat_text("---|"@, headers.len() as int)
        + "\n"@ + body_lines(rows) + if rows.len() == 0 {
        cells_line(Seq::new(headers.len(), |i: int| "—"@))
    } else {
        Seq::empty()
    } + "\n"@
}

/// The text of a row of cells.
pub open spec fn cells_text(row: Vec<String>) -> Seq<Seq<char>> {
    row@.map_values(|c: String| c@)
}

fn write_cells_line(out: &mut String, cells: &Vec<String>)
    ensures
        final(out)@ == old(out)@ + cells_line(cells_text(*cells)),
{
    proof {
        reveal_strlit("| ");
        reveal_strlit(" | ");
        reveal_strlit(" |\n");
    }
    out.append("| ");
    let ghost start = out@;
    let mut i: usize = 0;
    while i < cells.len()
        invariant
            i <= cells@.len(),
            out@ == start + join(cells_text(*cells).take(i as int), " | "@),
        decreases cells@.len() - i,
    {
        let ghost prev = out@;
        let ghost part = cells_text(*cells).take(i + 1);
        proof {
            assert(part.drop_last() =~= cells_text(*cells).take(i as int));
            assert(part.last() == cells@[i as int]@);
        }
        if i > 0 {
            out.append(" | ");
        }
        out.append(cells[i].as_str());
        proof {
            if i == 0 {
                assert(part.len() == 1);
                assert(join(cells_text(*cells).take(0), " | "@) =~= Seq::<char>::empty());
                assert(out@ =~= start + join(part, " | "@));
            } else {
                assert(out@ =~= start + join(part, " | "@));
            }
        }
        i = i + 1;
    }
    out.append(" |\n");
    proof {
        assert(cells_text(*cells).take(cells@.len() as int) =~= cells_text(*cells));
        assert(final(out)@ =~= old(out)@ + cells_line(cells_text(*cells)));
    }
}

fn write_ranking_table(out: &mut String, title: &str, headers: &Vec<String>, rows: &Vec<Vec<String>>)
    ensures
        final(out)@ == old(out)@ + table_text(
            title@,
            cells_text(*headers),
            rows@.map_values(|r: Vec<String>| cells_text(r)),
        ),
{
    proof {
        reveal_strlit("## ");
        reveal_strlit("\n\n");
        reveal_strlit("|");
        reveal_strlit("---|");
        reveal_strlit("\n");
        reveal_strlit("—");
    }
    let ghost rt = rows@.map_values(|r: Vec<String>| cells_text(r));
    out.append("## ");
    out.append(title);
    out.append("\n\n");
    write_cells_line(out, headers);
    out.append("|");
    let ghost s0 = out@;
    let mut k: usize = 0;
    while k < headers.len()
        invariant
            k <= headers@.len(),
            out@ == s0 + repeat_text("---|"@, k as int),
        decreases headers@.len() - k,
    {
        out.append("---|");
        k = k + 1;
    }
    out.append("\n");
    let ghost s1 = out@;
    let mut i: usize = 0;
    while i < rows.len()
        invariant
            rt == rows@.map_values(|r: Vec<String>| cells_text(r)),
            i <= rows@.len(),
            out@ == s1 + body_lines(rt.take(i as int)),
        decreases rows@.len() - i,
    {
        write_cells_line(out, &rows[i]);
        proof {
            assert(rt.take(i + 1).drop_last() =~= rt.take(i as int));
        }
        i = i + 1;
    }
    proof {
        assert(rt.take(rt.len() as int) =~= rt);
    }
    let ghost s2 = out@;
    if rows.len() == 0 {
        let mut dashes: Vec<String> = Vec::new();
        let mut j: usize = 0;
        while j < headers.len()
            invariant
                j <= headers@.len(),
                dashes@.len() == j,
                cells_text(dashes) =~= Seq::new(j as nat, |i: int| "—"@),
            decreases headers@.len() - j,
        {
            let ghost prev = dashes@;
            let d = String::from_str("—");
            dashes.push(d);
            proof {
                assert(dashes@ == prev.push(d));
                assert(cells_text(dashes) =~= Seq::new((j + 1) as nat, |i: int| "—"@)) by {
                    assert forall|i: int| 0 <= i < j + 1 implies #[trigger] cells_text(dashes)[i] == "—"@ by {
                        if i < j {
                            assert(dashes@[i] == prev[i]);
                            assert(prev.map_values(|c: String| c@)[i] == Seq::new(j as nat, |i: int| "—"@)[i]);
                        } else {
                            assert(dashes@[i] == d);
                        }
                    }
                }
            }
            j = j + 1;
        }
        write_cells_line(out, &dashes);
    }
    out.append("\n");
    proof {
        assert(final(out)@ =~= old(out)@ + table_text(title@, cells_text(*headers), rt));
    }
}

// ---------------------------------------------------------------------
// By-type table
// ---------------------------------------------------------------------

/// Bytes of the files of type `k` among `d` in the chosen size mode.
pub open spec fn type_size(t: &Tree, d: Seq<NodeId>, k: Seq<char>, use_alloc: bool) -> int {
    if use_alloc {
        t.type_alloc(d, k)
    } else {
        t.type_logical(d, k)
    }
}

/// Positions of the types `ks` ordered largest first, equal sizes by
/// name.
pub open spec fn type_order(t: &Tree, d: Seq<NodeId>, ks: Seq<Seq<char>>, use_alloc: bool) -> Seq<int> {
    ranked(
        ks.len() as int,
        Seq::new(ks.len(), |i: int| type_size(t, d, ks[i], use_alloc) as u64),
        Seq::empty(),
        ks,
        TieBreak::NameAsc,
    )
}

/// How a type is labelled: `.ext`, or `(none)` as is.
pub open spec fn type_label(k: Seq<char>) -> Seq<char> {
    if k == "(none)"@ {
        k
    } else {
        "."@ + k
    }
}

/// One line of the by-type table.
pub open spec fn type_line(label: Seq<char>, size: int, files: int, root_size: u64) -> Seq<char> {
    "| "@ + label + " | "@ + bytes_text(size as nat) + " | "@ + percent_text(size as nat, root_size as nat)
        + " | "@ + grouped(decimal(files as nat)) + " |\n"@
}

/// The lines of the types at positions `ps`.
pub open spec fn type_lines(
    t: &Tree,
    d: Seq<NodeId>,
    ks: Seq<Seq<char>>,
    ps: Seq<int>,
    use_alloc: bool,
    root_size: u64,
) -> Seq<char>
    decreases ps.len(),
{
    if ps.len() == 0 {
        Seq::empty()
    } else {
        let k = ks[ps.last()];
        type_lines(t, d, ks, ps.drop_last(), use_alloc, root_size) + type_line(
            type_label(k),
            type_size(t, d, k, use_alloc),
            t.type_files(d, k),
            root_size,
        )
    }
}

/// Total bytes of the types at positions `ps`.
pub open spec fn sizes_sum(t: &Tree, d: Seq<NodeId>, ks: Seq<Seq<char>>, ps: Seq<int>, use_alloc: bool) -> int
    decreases ps.len(),
{
    if ps.len() == 0 {
        0
    } else {
        sizes_sum(t, d, ks, ps.drop_last(), use_alloc) + type_size(t, d, ks[ps.last()], use_alloc)
    }
}

/// Total files of the types at positions `ps`.
pub open spec fn files_sum(t: &Tree, d: Seq<NodeId>, ks: Seq<Seq<char>>, ps: Seq<int>) -> int
    decreases ps.len(),
{
    if ps.len() == 0 {
        0
    } else {
        files_sum(t, d, ks, ps.drop_last()) + t.type_files(d, ks[ps.last()])
    }
}

/// The by-type table of the subtree of `root`: at most the configured
/// number of types, largest first, and one line totalling the rest.
pub open spec fn by_type_text(t: &Tree, root: int, o: ExportOptions, root_size: u64) -> Seq<char> {
    let d = t.subtree_order(root);
    let ks = t.type_keys(d);
    let n = ks.len() as int;
    "## By file type\n\n| Extension | Size | % | Files |\n|---|---|---|---|\n"@ + if n == 0 {
        "| — | — | — | — |\n\n"@
    } else {
        let ord = type_order(t, d, ks, o.use_alloc);
        let m = if n < o.by_type_limit {
            n
        } else {
            o.by_type_limit as int
        };
        let rest = ord.skip(m);
        type_lines(t, d, ks, ord.take(m), o.use_alloc, root_size) + if m < n {
            "| *(+"@ + decimal(rest.len()) + " more types)* | "@ + bytes_text(
                sizes_sum(t, d, ks, rest, o.use_alloc) as nat,
            ) + " | "@ + percent_text(sizes_sum(t, d, ks, rest, o.use_alloc) as nat, root_size as nat)
                + " | "@ + grouped(decimal(files_sum(t, d, ks, rest) as nat)) + " |\n"@
        } else {
            Seq::empty()
        } + "\n"@
    }
}

/// The sums over positions are the type totals over the matching types.
proof fn lemma_sums_are_types_totals(t: &Tree, d: Seq<NodeId>, ks: Seq<Seq<char>>, ps: Seq<int>, use_alloc: bool)
    requires
        forall|k: int| 0 <= k < ps.len() ==> 0 <= #[trigger] ps[k] < ks.len(),
    ensures
        sizes_sum(t, d, ks, ps, use_alloc) == t.types_total(
            d,
            ps.map_values(|p: int| ks[p]),
            if use_alloc {
                |x: int| t.alloc_at(x) as int
            } else {
                |x: int| t.logical_at(x) as int
            },
        ),
        files_sum(t, d, ks, ps) == t.types_total(d, ps.map_values(|p: int| ks[p]), |x: int| 1int),
    decreases ps.len(),
{
    if ps.len() > 0 {
        assert forall|k: int| 0 <= k < ps.drop_last().len() implies 0 <= #[trigger] ps.drop_last()[k]
            < ks.len() by {
            assert(ps.drop_last()[k] == ps[k]);
        }
        lemma_sums_are_types_totals(t, d, ks, ps.drop_last(), use_alloc);
        let m = ps.map_values(|p: int| ks[p]);
        assert(m.drop_last() =~= ps.drop_last().map_values(|p: int| ks[p]));
        assert(m.last() == ks[ps.last()]);
        t.lemma_type_sums_are_totals(d, ks[ps.last()]);
    }
}

/// The rest of the types total no more than the subtree.
pub(crate) proof fn lemma_rest_sums_fit(t: &Tree, root: int, ks: Seq<Seq<char>>, ps: Seq<int>, use_alloc: bool)
    requires
        t.wf(),
        0 <= root < t.node_total(),
        ks == t.type_keys(t.subtree_order(root)),
        ps.no_duplicates(),
        forall|k: int| 0 <= k < ps.len() ==> 0 <= #[trigger] ps[k] < ks.len(),
    ensures
        0 <= sizes_sum(t, t.subtree_order(root), ks, ps, use_alloc) <= u64::MAX,
        0 <= files_sum(t, t.subtree_order(root), ks, ps) <= u32::MAX,
{
    let d = t.subtree_order(root);
    lemma_sums_are_types_totals(t, d, ks, ps, use_alloc);
    t.lemma_type_keys_distinct(d);
    let m = ps.map_values(|p: int| ks[p]);
    assert(m.no_duplicates()) by {
        assert forall|i: int, j: int| 0 <= i < m.len() && 0 <= j < m.len() && i != j implies m[i] != m[j] by {
            assert(ps[i] != ps[j]);
        }
    }
    let amt = if use_alloc {
        |x: int| t.alloc_at(x) as int
    } else {
        |x: int| t.logical_at(x) as int
    };
    t.lemma_types_total_bound(d, m, amt);
    t.lemma_types_total_bound(d, m, |x: int| 1int);
    t.law_subtree_order_is_distinct(root);
    t.lemma_files_total_bounds(d);
    t.law_subtree_is_sum_over_descendants(root);
    t.law_rank_bounded(root);
    t.lemma_files_bounded(root);
}

fn write_type_line(out: &mut String, key: &str, size: u64, files: u64, root_size: u64)
    ensures
        final(out)@ == old(out)@ + type_line(type_label(key@), size as int, files as int, root_size),
{
    proof {
        reveal_strlit("| ");
        reveal_strlit(" | ");
        reveal_strlit(" |\n");
        reveal_strlit("(none)");
        reveal_strlit(".");
    }
    out.append("| ");
    let kc = chars_of(key);
    let none = chars_of("(none)");
    let mut same = kc.len() == none.len();
    let mut i: usize = 0;
    while same && i < kc.len()
        invariant
            kc@ == key@,
            none@ == "(none)"@,
            i <= kc@.len(),
            same ==> kc@.len() == none@.len(),
            same ==> kc@.take(i as int) == none@.take(i as int),
            !same ==> kc@ != none@,
        decreases kc@.len() - i,
    {
        if kc[i] != none[i] {
            same = false;
        } else {
            proof {
                assert(kc@.take(i + 1) =~= kc@.take(i as int).push(kc@[i as int]));
                assert(none@.take(i + 1) =~= none@.take(i as int).push(none@[i as int]));
            }
        }
        i = i + 1;
    }
    proof {
        if same {
            assert(kc@.take(kc@.len() as int) =~= kc@);
            assert(none@.take(none@.len() as int) =~= none@);
        }
    }
    if !same {
        out.append(".");
    }
    out.append(key);
    out.append(" | ");
    out.append(bytes(size).as_str());
    out.append(" | ");
    out.append(percent(size, root_size).as_str());
    out.append(" | ");
    out.append(count(files).as_str());
    out.append(" |\n");
    proof {
        assert(final(out)@ =~= old(out)@ + type_line(type_label(key@), size as int, files as int, root_size));
    }
}

/// What [`Tree::extension_breakdown`] promises of its result, over the
/// walk `d` and its types `ks`.
pub open spec fn breakdown_ok(t: &Tree, b: Seq<(String, ExtStat)>, d: Seq<NodeId>, ks: Seq<Seq<char>>) -> bool {
    &&& b.len() == ks.len()
    &&& forall|j: int| 0 <= j < b.len() ==> (#[trigger] b[j]).0@ == ks[j]
    &&& forall|j: int|
        0 <= j < b.len() ==> {
            &&& (#[trigger] b[j]).1.files == t.type_files(d, b[j].0@)
            &&& b[j].1.logical == t.type_logical(d, b[j].0@)
            &&& b[j].1.alloc == t.type_alloc(d, b[j].0@)
        }
}

pub(crate) fn type_columns(
    tree: &Tree,
    breakdown: &Vec<(String, ExtStat)>,
    use_alloc: bool,
    Ghost(d): Ghost<Seq<NodeId>>,
    Ghost(ks): Ghost<Seq<Seq<char>>>,
) -> (r: (Vec<u64>, Vec<Vec<char>>))
    requires
        breakdown_ok(tree, breakdown@, d, ks),
    ensures
        r.0@ == Seq::new(ks.len(), |j: int| type_size(tree, d, ks[j], use_alloc) as u64),
        r.1@.map_values(|v: Vec<char>| v@) == ks,
        r.1@.len() == ks.len(),
{
    let n = breakdown.len();
    let mut sizes: Vec<u64> = Vec::new();
    let mut names: Vec<Vec<char>> = Vec::new();
    let mut i: usize = 0;
    while i < n
        invariant
            n == breakdown@.len() == ks.len(),
            breakdown_ok(tree, breakdown@, d, ks),
            i <= n,
            sizes@ == Seq::new(ks.len(), |j: int| type_size(tree, d, ks[j], use_alloc) as u64).take(i as int),
            names@.len() == i,
            names@.map_values(|v: Vec<char>| v@) == ks.take(i as int),
        decreases n - i,
    {
        let stat = breakdown[i].1;
        let size = if use_alloc {
            stat.alloc
        } else {
            stat.logical
        };
        sizes.push(size);
        let nm = chars_of(breakdown[i].0.as_str());
        let ghost prev = names@;
        names.push(nm);
        proof {
            assert(breakdown@[i as int].0@ == ks[i as int]);
            assert(nm@ == ks[i as int]);
            assert(names@ == prev.push(nm));
            assert(prev.map_values(|v: Vec<char>| v@) == ks.take(i as int));
            assert(sizes@ =~= Seq::new(ks.len(), |j: int| type_size(tree, d, ks[j], use_alloc) as u64).take(i + 1));
            assert(names@.map_values(|v: Vec<char>| v@) =~= ks.take(i + 1));
        }
        i = i + 1;
    }
    proof {
        assert(sizes@ =~= Seq::new(ks.len(), |j: int| type_size(tree, d, ks[j], use_alloc) as u64));
        assert(names@.map_values(|v: Vec<char>| v@) =~= ks);
    }
    (sizes, names)
}

/// The line totalling the types at positions `rest`.
pub open spec fn rest_line(t: &Tree, d: Seq<NodeId>, ks: Seq<Seq<char>>, rest: Seq<int>, use_alloc: bool, root_size: u64) -> Seq<char> {
    "| *(+"@ + decimal(rest.len()) + " more types)* | "@ + bytes_text(
        sizes_sum(t, d, ks, rest, use_alloc) as nat,
    ) + " | "@ + percent_text(sizes_sum(t, d, ks, rest, use_alloc) as nat, root_size as nat) + " | "@
        + grouped(decimal(files_sum(t, d, ks, rest) as nat)) + " |\n"@
}

fn write_rest_line(
    out: &mut String,
    tree: &Tree,
    root: NodeId,
    breakdown: &Vec<(String, ExtStat)>,
    order: &Vec<usize>,
    m: usize,
    use_alloc: bool,
    root_size: u64,
)
    requires
        tree.wf(),
        root < tree.node_total(),
        breakdown_ok(
            tree,
            breakdown@,
            tree.subtree_order(root as int),
            tree.type_keys(tree.subtree_order(root as int)),
        ),
        order@.len() == breakdown@.len(),
        forall|q: int| 0 <= q < order@.len() ==> #[trigger] order@[q] < breakdown@.len(),
        order@.map_values(|p: usize| p as int).no_duplicates(),
        m <= order@.len(),
    ensures
        final(out)@ == old(out)@ + rest_line(
            tree,
            tree.subtree_order(root as int),
            tree.type_keys(tree.subtree_order(root as int)),
            order@.map_values(|p: usize| p as int).skip(m as int),
            use_alloc,
            root_size,
        ),
{
    proof {
        reveal_strlit("| *(+");
        reveal_strlit(" more types)* | ");
        reveal_strlit(" | ");
        reveal_strlit(" |\n");
    }
    let ghost d = tree.subtree_order(root as int);
    let ghost ks = tree.type_keys(d);
    let ghost ord = order@.map_values(|p: usize| p as int);
    let ghost rest = ord.skip(m as int);
    let n = order.len();
    proof {
        assert forall|j: int| 0 <= j < rest.len() implies 0 <= #[trigger] rest[j] < ks.len() by {
            assert(rest[j] == ord[m + j]);
        }
        assert(rest.no_duplicates()) by {
            assert forall|a: int, b: int| 0 <= a < rest.len() && 0 <= b < rest.len() && a != b implies rest[a] != rest[b] by {
                assert(rest[a] == ord[m + a]);
                assert(rest[b] == ord[m + b]);
            }
        }
        lemma_rest_sums_fit(tree, root as int, ks, rest, use_alloc);
    }
    let mut rest_size: u64 = 0;
    let mut rest_files: u64 = 0;
    let mut j: usize = m;
    while j < n
        invariant
            n == breakdown@.len() == ks.len() == order@.len(),
            breakdown_ok(tree, breakdown@, d, ks),
            forall|q: int| 0 <= q < order@.len() ==> #[trigger] order@[q] < n,
            ord == order@.map_values(|p: usize| p as int),
            rest == ord.skip(m as int),
            m <= j <= n,
            0 <= sizes_sum(tree, d, ks, rest, use_alloc) <= u64::MAX,
            0 <= files_sum(tree, d, ks, rest) <= u32::MAX,
            rest_size == sizes_sum(tree, d, ks, rest.take(j - m), use_alloc),
            rest_files == files_sum(tree, d, ks, rest.take(j - m)),
        decreases n - j,
    {
        let p = order[j];
        let stat = breakdown[p].1;
        let size = if use_alloc {
            stat.alloc
        } else {
            stat.logical
        };
        proof {
            assert(rest.take(j + 1 - m).drop_last() =~= rest.take(j - m));
            assert(rest.take(j + 1 - m).last() == p as int);
            assert(breakdown@[p as int].0@ == ks[p as int]);
            lemma_sums_prefix(tree, d, ks, rest, j + 1 - m, use_alloc);
        }
        rest_size = rest_size + size;
        rest_files = rest_files + stat.files as u64;
        j = j + 1;
    }
    proof {
        assert(rest.take(n - m) =~= rest);
    }
    out.append("| *(+");
    out.append(decimal_string((n - m) as u64).as_str());
    out.append(" more types)* | ");
    out.append(bytes(rest_size).as_str());
    out.append(" | ");
    out.append(percent(rest_size, root_size).as_str());
    out.append(" | ");
    out.append(count(rest_files).as_str());
    out.append(" |\n");
    proof {
        assert(final(out)@ =~= old(out)@ + rest_line(tree, d, ks, rest, use_alloc, root_size));
    }
}

fn write_by_type_table(out: &mut String, tree: &Tree, root: NodeId, opts: &ExportOptions, root_size: u64)
    requires
        tree.wf(),
        root < tree.node_total(),
    ensures
        final(out)@ == old(out)@ + by_type_text(tree, root as int, *opts, root_size),
{
    proof {
        reveal_strlit("## By file type\n\n| Extension | Size | % | Files |\n|---|---|---|---|\n");
        reveal_strlit("| — | — | — | — |\n\n");
        reveal_strlit("\n");
    }
    let breakdown = tree.extension_breakdown(root);
    let ghost d = tree.subtree_order(root as int);
    let ghost ks = tree.type_keys(d);
    out.append("## By file type\n\n| Extension | Size | % | Files |\n|---|---|---|---|\n");
    if breakdown.len() == 0 {
        out.append("| — | — | — | — |\n\n");
        return;
    }
    let n = breakdown.len();
    let (sizes, names) = type_columns(tree, &breakdown, opts.use_alloc, Ghost(d), Ghost(ks));
    let no_second: Vec<u64> = Vec::new();
    let order = rank_positions(sizes.as_slice(), no_second.as_slice(), &names, TieBreak::NameAsc);
    let ghost ord = order@.map_values(|p: usize| p as int);
    proof {
        assert(no_second@ =~= Seq::<u64>::empty());
        assert(ord == type_order(tree, d, ks, opts.use_alloc));
        lemma_ranked_perm(ks.len() as int, Seq::new(ks.len(), |j: int| type_size(tree, d, ks[j], opts.use_alloc) as u64), Seq::empty(), ks, TieBreak::NameAsc);
    }
    let m = if n < opts.by_type_limit {
        n
    } else {
        opts.by_type_limit
    };
    let ghost head = out@;
    let mut k: usize = 0;
    while k < m
        invariant
            n == breakdown@.len() == ks.len() == order@.len(),
            breakdown_ok(tree, breakdown@, d, ks),
            forall|j: int| 0 <= j < order@.len() ==> #[trigger] order@[j] < n,
            ord == order@.map_values(|p: usize| p as int),
            m <= n,
            k <= m,
            out@ == head + type_lines(tree, d, ks, ord.take(k as int), opts.use_alloc, root_size),
        decreases m - k,
    {
        let p = order[k];
        let stat = breakdown[p].1;
        let size = if opts.use_alloc {
            stat.alloc
        } else {
            stat.logical
        };
        proof {
            assert(breakdown@[p as int].0@ == ks[p as int]);
        }
        write_type_line(out, breakdown[p].0.as_str(), size, stat.files as u64, root_size);
        proof {
            assert(ord.take(k + 1).drop_last() =~= ord.take(k as int));
            assert(ord.take(k + 1).last() == p as int);
        }
        k = k + 1;
    }
    let ghost mid = out@;
    if m < n {
        write_rest_line(out, tree, root, &breakdown, &order, m, opts.use_alloc, root_size);
    }
    out.append("\n");
    proof {
        assert(final(out)@ =~= old(out)@ + by_type_text(tree, root as int, *opts, root_size));
    }
}

/// Prefix sums of the types stay within the whole sums.
pub(crate) proof fn lemma_sums_prefix(t: &Tree, d: Seq<NodeId>, ks: Seq<Seq<char>>, ps: Seq<int>, i: int, use_alloc: bool)
    requires
        0 <= i <= ps.len(),
    ensures
        0 <= sizes_sum(t, d, ks, ps.take(i), use_alloc) <= sizes_sum(t, d, ks, ps, use_alloc),
        0 <= files_sum(t, d, ks, ps.take(i)) <= files_sum(t, d, ks, ps),
    decreases ps.len(),
{
    if i == ps.len() {
        assert(ps.take(i) =~= ps);
        lemma_sums_nonneg(t, d, ks, ps, use_alloc);
    } else {
        lemma_sums_prefix(t, d, ks, ps.drop_last(), i, use_alloc);
        assert(ps.drop_last().take(i) =~= ps.take(i));
        t.lemma_type_files_nonneg(d, ks[ps.last()]);
    }
}

proof fn lemma_sums_nonneg(t: &Tree, d: Seq<NodeId>, ks: Seq<Seq<char>>, ps: Seq<int>, use_alloc: bool)
    ensures
        sizes_sum(t, d, ks, ps, use_alloc) >= 0,
        files_sum(t, d, ks, ps) >= 0,
    decreases ps.len(),
{
    if ps.len() > 0 {
        lemma_sums_nonneg(t, d, ks, ps.drop_last(), use_alloc);
        t.lemma_type_files_nonneg(d, ks[ps.last()]);
    }
}

// ---------------------------------------------------------------------
// The document
// ---------------------------------------------------------------------

/// The path of `id` joined with `sep`.
pub open spec fn path_text(t: &Tree, id: int, sep: Seq<char>) -> Seq<char> {
    join(t.path_parts(id), sep)
}

/// Rows of the largest-folders table (`with_share`) or the largest-files
/// table.
pub open spec fn ranking_rows(
    t: &Tree,
    items: Seq<NodeId>,
    sep: Seq<char>,
    o: ExportOptions,
    root_size: u64,
    with_share: bool,
) -> Seq<Seq<Seq<char>>> {
    Seq::new(
        items.len(),
        |i: int|
            {
                let size = size_in(t, items[i] as int, o.use_alloc);
                let base = seq![
                    decimal((i + 1) as nat),
                    code_span_text(path_text(t, items[i] as int, sep)),
                    bytes_text(size as nat),
                ];
                if with_share {
                    base.push(percent_text(size as nat, root_size as nat))
                } else {
                    base
                }
            },
    )
}

/// The whole report.
pub open spec fn export_text(t: &Tree, root: int, sep: Seq<char>, meta: &ScanMeta, o: ExportOptions) -> Seq<char> {
    let root_path = path_text(t, root, sep);
    let rs = size_in(t, root, o.use_alloc);
    title_text(root_path, meta.volume) + summary_text(t, root, meta, rs) + tree_section_text(t, root, rs, o)
        + if o.largest_folders > 0 {
        table_text(
            "Largest folders"@,
            seq!["#"@, "Path"@, "Size"@, "% of total"@],
            ranking_rows(t, largest_items(t, root, o, true), sep, o, rs, true),
        )
    } else {
        Seq::empty()
    } + if o.include_files {
        (if o.largest_files > 0 {
            table_text(
                "Largest files"@,
                seq!["#"@, "Path"@, "Size"@],
                ranking_rows(t, largest_items(t, root, o, false), sep, o, rs, false),
            )
        } else {
            Seq::empty()
        }) + (if o.by_type_limit > 0 {
            by_type_text(t, root, o, rs)
        } else {
            Seq::empty()
        })
    } else {
        Seq::empty()
    }
}

fn ranking_row_cells(
    tree: &Tree,
    items: &Vec<NodeId>,
    path_sep: &str,
    opts: &ExportOptions,
    root_size: u64,
    with_share: bool,
) -> (rows: Vec<Vec<String>>)
    requires
        tree.wf(),
        forall|k: int| 0 <= k < items@.len() ==> #[trigger] items@[k] < tree.node_total(),
    ensures
        rows@.map_values(|r: Vec<String>| cells_text(r)) == ranking_rows(
            tree,
            items@,
            path_sep@,
            *opts,
            root_size,
            with_share,
        ),
{
    let mut rows: Vec<Vec<String>> = Vec::new();
    let mut i: usize = 0;
    while i < items.len()
        invariant
            tree.wf(),
            forall|k: int| 0 <= k < items@.len() ==> #[trigger] items@[k] < tree.node_total(),
            i <= items@.len(),
            rows@.len() == i,
            rows@.map_values(|r: Vec<String>| cells_text(r)) == ranking_rows(
                tree,
                items@,
                path_sep@,
                *opts,
                root_size,
                with_share,
            ).take(i as int),
        decreases items@.len() - i,
    {
        let id = items[i];
        let size = size_of(tree, id, opts);
        let mut cells: Vec<String> = Vec::new();
        cells.push(decimal_string((i + 1) as u64));
        cells.push(code_span(tree.path(id, path_sep).as_str()));
        cells.push(bytes(size));
        if with_share {
            cells.push(percent(size, root_size));
        }
        let ghost prev = rows@;
        rows.push(cells);
        proof {
            let want = ranking_rows(tree, items@, path_sep@, *opts, root_size, with_share);
            assert(cells_text(cells) =~= want[i as int]);
            assert(rows@ == prev.push(cells));
            let cur = rows@.map_values(|r: Vec<String>| cells_text(r));
            let old_m = prev.map_values(|r: Vec<String>| cells_text(r));
            assert(old_m == want.take(i as int));
            assert forall|k: int| 0 <= k < i + 1 implies #[trigger] cur[k] == want.take(i + 1)[k] by {
                if k < i {
                    assert(rows@[k] == prev[k]);
                    assert(old_m[k] == want.take(i as int)[k]);
                }
            }
            assert(cur =~= want.take(i + 1));
        }
        i = i + 1;
    }
    proof {
        assert(ranking_rows(tree, items@, path_sep@, *opts, root_size, with_share).take(items@.len() as int)
            =~= ranking_rows(tree, items@, path_sep@, *opts, root_size, with_share));
    }
    rows
}

fn header_cells(with_share: bool) -> (h: Vec<String>)
    ensures
        cells_text(h) == if with_share {
            seq!["#"@, "Path"@, "Size"@, "% of total"@]
        } else {
            seq!["#"@, "Path"@, "Size"@]
        },
{
    let mut h: Vec<String> = Vec::new();
    h.push(String::from_str("#"));
    h.push(String::from_str("Path"));
    h.push(String::from_str("Size"));
    if with_share {
        h.push(String::from_str("% of total"));
    }
    proof {
        if with_share {
            assert(cells_text(h) =~= seq!["#"@, "Path"@, "Size"@, "% of total"@]);
        } else {
            assert(cells_text(h) =~= seq!["#"@, "Path"@, "Size"@]);
        }
    }
    h
}

/// Renders the subtree of `root` as the Markdown report: title, summary
/// table, folder tree, then (as the options ask) the largest folders, the
/// largest files and the by-type table. `root` must be a directory.
#[verifier::spinoff_prover]
#[verifier::rlimit(40)]
pub fn export_markdown(
    tree: &Tree,
    root: NodeId,
    path_sep: &str,
    meta: &ScanMeta,
    opts: &ExportOptions,
) -> (out: String)
    requires
        tree.wf(),
        root < tree.node_total(),
        tree.is_dir_at(root as int),
    ensures
        out@ == export_text(tree, root as int, path_sep@, meta, *opts),
{
    proof {
        reveal_strlit("Largest folders");
        reveal_strlit("Largest files");
        reveal_strlit("#");
        reveal_strlit("Path");
        reveal_strlit("Size");
        reveal_strlit("% of total");
        tree.law_rank_bounded(root as int);
    }
    let mut out = String::new();
    let root_path = tree.path(root, path_sep);
    let root_size = size_of(tree, root, opts);
    write_title(&mut out, root_path.as_str(), meta);
    write_summary_table(&mut out, tree, root, meta, root_size);
    write_tree_section(&mut out, tree, root, root_size, opts);
    let ghost s1 = out@;
    if opts.largest_folders > 0 {
        let items = largest(tree, root, opts, true);
        let rows = ranking_row_cells(tree, &items, path_sep, opts, root_size, true);
        let headers = header_cells(true);
        write_ranking_table(&mut out, "Largest folders", &headers, &rows);
    }
    let ghost s2 = out@;
    if opts.include_files {
        if opts.largest_files > 0 {
            let items = largest(tree, root, opts, false);
            let rows = ranking_row_cells(tree, &items, path_sep, opts, root_size, false);
            let headers = header_cells(false);
            write_ranking_table(&mut out, "Largest files", &headers, &rows);
        }
        if opts.by_type_limit > 0 {
            write_by_type_table(&mut out, tree, root, opts, root_size);
        }
    }
    proof {
        assert(out@ =~= export_text(tree, root as int, path_sep@, meta, *opts));
    }
    out
}

} // verus!
