//! What the interface is told about a scan, as plain values: booleans
//! instead of a flags bitmask, pre-joined paths, subtree totals. The
//! application serializes these; the tree itself never leaves the
//! process.

use vstd::prelude::*;
use vstd::string::StringExecFns;

use crate::export::{
    child_keys, child_names, child_order, kept_children, lemma_child_order, ordered_children, path_text,
    size_in, ExportOptions, SortBy,
};
use crate::sort::{chars_lt, lemma_ranked_perm, law_ranked_is_ordered, rank_lt, ranked, TieBreak};
use crate::search::{is_hit, search};
use crate::tree::{join, NodeId, Tree};
use crate::volume::{used_of, VolumeInfo};

verus! {

broadcast use vstd::string::group_string_axioms;

pub struct VolumeDto {
    pub path: String,
    pub label: String,
    pub filesystem: String,
    pub total_bytes: u64,
    pub used_bytes: u64,
    pub free_bytes: u64,
}

impl VolumeDto {
    pub fn new(path: String, label: String, info: &VolumeInfo) -> (d: VolumeDto)
        ensures
            d.path@ == path@,
            d.label@ == label@,
            d.filesystem@ == info.filesystem@,
            d.total_bytes == info.total_bytes,
            d.used_bytes == used_of(info.total_bytes, info.free_bytes),
            d.free_bytes == info.free_bytes,
    {
        VolumeDto {
            path,
            label,
            filesystem: info.filesystem.clone(),
            total_bytes: info.total_bytes,
            used_bytes: info.used_bytes(),
            free_bytes: info.free_bytes,
        }
    }
}

pub struct FastScanStatusDto {
    /// The path is a whole NTFS volume, so the MFT engine applies to it.
    pub available: bool,
    /// This process can already open the raw volume.
    pub elevated: bool,
}

pub struct ScanProgressDto {
    pub files_seen: u64,
    pub bytes_seen: u64,
    pub elapsed_ms: u64,
    /// Which engine is running.
    pub engine: String,
    /// `"indexing"` or `"buildingTree"`.
    pub phase: String,
}

pub struct HeaderDto {
    pub root_id: u32,
    pub root_name: String,
    pub root_path: String,
    pub engine: String,
    pub duration_ms: u64,
    pub scanned_at: String,
    pub denied_count: u64,
    pub volume: Option<VolumeDto>,
    pub indexed_files: u32,
    pub indexed_folders: u32,
    pub indexed_logical: u64,
    pub indexed_alloc: u64,
}

/// The folders among `s`.
pub open spec fn dirs_among(t: &Tree, s: Seq<NodeId>) -> nat
    decreases s.len(),
{
    if s.len() == 0 {
        0
    } else {
        dirs_among(t, s.drop_last()) + if t.is_dir_at(s.last() as int) {
            1nat
        } else {
            0nat
        }
    }
}

/// How many folders lie below `root`, not counting `root` itself (as a
/// `u32`, which a count of node ids always fits).
pub open spec fn folders_below(t: &Tree, root: int) -> u32 {
    let n = dirs_among(t, t.subtree_order(root)) as u32;
    if n == 0 {
        0
    } else {
        (n - 1) as u32
    }
}

proof fn lemma_dirs_bound(t: &Tree, s: Seq<NodeId>)
    ensures
        dirs_among(t, s) <= s.len(),
    decreases s.len(),
{
    if s.len() > 0 {
        lemma_dirs_bound(t, s.drop_last());
    }
}

/// The folders below `root`, for the header's summary.
pub fn indexed_folders(tree: &Tree, root: NodeId) -> (n: u32)
    requires
        tree.wf(),
        root < tree.node_total(),
    ensures
        n == folders_below(tree, root as int),
{
    let ids = tree.descendants(root);
    let ghost d = ids@;
    proof {
        tree.law_subtree_order_is_distinct(root as int);
        tree.law_rank_bounded(root as int);
    }
    let mut count: usize = 0;
    let mut i: usize = 0;
    while i < ids.len()
        invariant
            tree.wf(),
            i <= d.len(),
            d == ids@,
            d == tree.subtree_order(root as int),
            d.len() <= tree.node_total(),
            tree.node_total() <= u32::MAX + 1,
            forall|k: int| 0 <= k < d.len() ==> #[trigger] d[k] < tree.node_total(),
            count == dirs_among(tree, d.take(i as int)),
        decreases d.len() - i,
    {
        proof {
            assert(d.take(i + 1).drop_last() =~= d.take(i as int));
            lemma_dirs_bound(tree, d.take(i as int));
        }
        if tree.is_dir(ids[i]) {
            count = count + 1;
        }
        i = i + 1;
    }
    proof {
        assert(d.take(i as int) =~= d);
    }
    let c = count as u32;
    if c == 0 {
        0
    } else {
        c - 1
    }
}

/// The header shown once a scan of `root` finishes.
pub fn header_for(
    tree: &Tree,
    root: NodeId,
    sep: &str,
    engine: String,
    duration_ms: u64,
    scanned_at: String,
    denied_count: u64,
    volume: Option<VolumeDto>,
) -> (h: HeaderDto)
    requires
        tree.wf(),
        root < tree.node_total(),
    ensures
        h.root_id == root,
        h.root_name@ == tree.name_at(root as int),
        h.root_path@ == path_text(tree, root as int, sep@),
        h.engine@ == engine@,
        h.duration_ms == duration_ms,
        h.scanned_at@ == scanned_at@,
        h.denied_count == denied_count,
        h.volume == volume,
        h.indexed_files == tree.files_at(root as int),
        h.indexed_folders == folders_below(tree, root as int),
        h.indexed_logical == tree.subtree_logical_at(root as int),
        h.indexed_alloc == tree.subtree_alloc_at(root as int),
{
    HeaderDto {
        root_id: root,
        root_name: tree.name(root).to_owned(),
        root_path: tree.path(root, sep),
        engine,
        duration_ms,
        scanned_at,
        denied_count,
        volume,
        indexed_files: tree.file_count(root),
        indexed_folders: indexed_folders(tree, root),
        indexed_logical: tree.subtree_logical(root),
        indexed_alloc: tree.subtree_alloc(root),
    }
}

pub struct NodeInfoDto {
    pub id: u32,
    pub name: String,
    pub path: String,
    pub parent_id: Option<u32>,
    pub is_dir: bool,
    pub size_logical: u64,
    pub size_alloc: u64,
    pub file_count: u32,
    pub mtime: i64,
}

/// Everything the detail pane shows about one node, with subtree sizes.
pub fn node_info(tree: &Tree, id: NodeId, sep: &str) -> (d: NodeInfoDto)
    requires
        tree.wf(),
        id < tree.node_total(),
    ensures
        d.id == id,
        d.name@ == tree.name_at(id as int),
        d.path@ == path_text(tree, id as int, sep@),
        d.parent_id == if id == 0 {
            None::<u32>
        } else {
            Some(tree.parent_at(id as int) as u32)
        },
        d.is_dir == tree.is_dir_at(id as int),
        d.size_logical == tree.subtree_logical_at(id as int),
        d.size_alloc == tree.subtree_alloc_at(id as int),
        d.file_count == tree.files_at(id as int),
        d.mtime == tree.mtime_at(id as int),
{
    NodeInfoDto {
        id,
        name: tree.name(id).to_owned(),
        path: tree.path(id, sep),
        parent_id: tree.parent_of(id),
        is_dir: tree.is_dir(id),
        size_logical: tree.subtree_logical(id),
        size_alloc: tree.subtree_alloc(id),
        file_count: tree.file_count(id),
        mtime: tree.mtime(id),
    }
}

pub struct SearchHitDto {
    pub id: u32,
    pub name: String,
    pub path: String,
    pub is_dir: bool,
    pub size_logical: u64,
    pub size_alloc: u64,
}

/// The most hits a search lists.
pub const MAX_SEARCH_HITS: usize = 500;

/// A search hit as listed.
pub open spec fn hit_matches(t: &Tree, h: SearchHitDto, id: NodeId, sep: Seq<char>) -> bool {
    &&& h.id == id
    &&& h.name@ == t.name_at(id as int)
    &&& h.path@ == path_text(t, id as int, sep)
    &&& h.is_dir == t.is_dir_at(id as int)
    &&& h.size_logical == t.subtree_logical_at(id as int)
    &&& h.size_alloc == t.subtree_alloc_at(id as int)
}

/// The hits of [`search`] under `node`, at most [`MAX_SEARCH_HITS`] of
/// them, each with its path and subtree sizes.
pub fn search_hits(tree: &Tree, node: NodeId, query: &str, sep: &str) -> (hits: Vec<SearchHitDto>)
    requires
        tree.wf(),
        node < tree.node_total(),
    ensures
        ({
            let all = if query@.len() == 0 {
                Seq::<NodeId>::empty()
            } else {
                tree.subtree_order(node as int).filter(|id: NodeId| is_hit(tree, id, query@))
            };
            let n = if all.len() < MAX_SEARCH_HITS {
                all.len() as int
            } else {
                MAX_SEARCH_HITS as int
            };
            &&& hits@.len() == n
            &&& forall|k: int| 0 <= k < n ==> hit_matches(tree, #[trigger] hits@[k], all[k], sep@)
        }),
{
    let ids = search(tree, node, query);
    let ghost all = ids@;
    proof {
        tree.law_subtree_order_is_distinct(node as int);
        let d = tree.subtree_order(node as int);
        let pred = |id: NodeId| is_hit(tree, id, query@);
        if query@.len() > 0 {
            assert forall|j: int| 0 <= j < all.len() implies #[trigger] all[j] < tree.node_total() by {
                d.lemma_filter_contains_rev(pred, all[j]);
                assert(d.filter(pred).contains(all[j])) by {
                    assert(all[j] == d.filter(pred)[j]);
                }
                let m = choose|m: int| 0 <= m < d.len() && d[m] == all[j];
            }
        }
    }
    let mut hits: Vec<SearchHitDto> = Vec::new();
    let mut k: usize = 0;
    while k < ids.len() && k < MAX_SEARCH_HITS
        invariant
            tree.wf(),
            all == ids@,
            forall|j: int| 0 <= j < all.len() ==> #[trigger] all[j] < tree.node_total(),
            k <= all.len(),
            k <= MAX_SEARCH_HITS,
            hits@.len() == k,
            forall|j: int| 0 <= j < k ==> hit_matches(tree, #[trigger] hits@[j], all[j], sep@),
        decreases all.len() - k,
    {
        let id = ids[k];
        let h = SearchHitDto {
            id,
            name: tree.name(id).to_owned(),
            path: tree.path(id, sep),
            is_dir: tree.is_dir(id),
            size_logical: tree.subtree_logical(id),
            size_alloc: tree.subtree_alloc(id),
        };
        let ghost before = hits@;
        hits.push(h);
        proof {
            assert forall|j: int| 0 <= j < k + 1 implies hit_matches(tree, #[trigger] hits@[j], all[j], sep@) by {
                if j < k {
                    assert(hits@[j] == before[j]);
                }
            }
        }
        k = k + 1;
    }
    proof {
        if query@.len() == 0 {
            assert(all.len() == 0);
        }
    }
    hits
}

/// Export settings as the interface sends them: the sort order by name.
pub struct ExportOptionsDto {
    pub max_depth: Option<u32>,
    pub min_size: u64,
    pub include_files: bool,
    pub top_n: Option<u32>,
    pub sort_by: String,
    pub use_alloc: bool,
    pub largest_folders: usize,
    pub largest_files: usize,
    pub by_type_limit: usize,
}

impl ExportOptionsDto {
    /// The export options asked for: `"name"` sorts by name, anything
    /// else by size.
    pub fn options(&self) -> (o: ExportOptions)
        ensures
            o == (ExportOptions {
                max_depth: self.max_depth,
                min_size: self.min_size,
                include_files: self.include_files,
                top_n: self.top_n,
                sort_by: if self.sort_by@ == "name"@ {
                    SortBy::Name
                } else {
                    SortBy::Size
                },
                use_alloc: self.use_alloc,
                largest_folders: self.largest_folders,
                largest_files: self.largest_files,
                by_type_limit: self.by_type_limit,
            }),
    {
        let by_name = self.sort_by == String::from_str("name");
        ExportOptions {
            max_depth: self.max_depth,
            min_size: self.min_size,
            include_files: self.include_files,
            top_n: self.top_n,
            sort_by: if by_name {
                SortBy::Name
            } else {
                SortBy::Size
            },
            use_alloc: self.use_alloc,
            largest_folders: self.largest_folders,
            largest_files: self.largest_files,
            by_type_limit: self.by_type_limit,
        }
    }
}

/// The options under which a folder listing orders its children: every
/// child, by name or by size in the chosen mode.
pub open spec fn listing_options(by_name: bool, use_alloc: bool) -> ExportOptions {
    ExportOptions {
        max_depth: None,
        min_size: 0,
        include_files: true,
        top_n: None,
        sort_by: if by_name {
            SortBy::Name
        } else {
            SortBy::Size
        },
        use_alloc,
        largest_folders: 0,
        largest_files: 0,
        by_type_limit: 0,
    }
}

/// One page of a folder listing: the children by name, or largest first,
/// turned around when `reversed`, then `offset` skipped and at most `limit`
/// kept.
pub open spec fn page_of(
    t: &Tree,
    node: int,
    by_name: bool,
    reversed: bool,
    use_alloc: bool,
    offset: int,
    limit: int,
) -> Seq<NodeId> {
    let all = child_order(t, node, listing_options(by_name, use_alloc));
    let ordered = if reversed {
        all.reverse()
    } else {
        all
    };
    let rest = if offset < ordered.len() {
        ordered.skip(offset)
    } else {
        Seq::empty()
    };
    if limit < rest.len() {
        rest.take(limit)
    } else {
        rest
    }
}

/// A page of the children of `node`: `sort_by` `"name"` orders them by
/// name, anything else by size (largest first); `sort_dir` `"asc"` turns
/// that order around; then `offset` entries are skipped and at most `limit`
/// returned.
pub fn child_page(
    tree: &Tree,
    node: NodeId,
    sort_by: &str,
    sort_dir: &str,
    use_alloc: bool,
    offset: usize,
    limit: usize,
) -> (page: Vec<NodeId>)
    requires
        tree.wf(),
        node < tree.node_total(),
    ensures
        page@ == page_of(
            tree,
            node as int,
            sort_by@ == "name"@,
            sort_dir@ == "asc"@,
            use_alloc,
            offset as int,
            limit as int,
        ),
{
    let by_name = String::from_str(sort_by) == String::from_str("name");
    let reversed = String::from_str(sort_dir) == String::from_str("asc");
    let opts = ExportOptions {
        max_depth: None,
        min_size: 0,
        include_files: true,
        top_n: None,
        sort_by: if by_name {
            SortBy::Name
        } else {
            SortBy::Size
        },
        use_alloc,
        largest_folders: 0,
        largest_files: 0,
        by_type_limit: 0,
    };
    let all = ordered_children(tree, node, &opts);
    let ghost ordered = if reversed {
        all@.reverse()
    } else {
        all@
    };
    let n = all.len();
    let start = if offset < n {
        offset
    } else {
        n
    };
    let end = if limit < n - start {
        start + limit
    } else {
        n
    };
    let mut page: Vec<NodeId> = Vec::new();
    let mut i: usize = start;
    while i < end
        invariant
            n == all@.len(),
            ordered.len() == n,
            ordered == (if reversed {
                all@.reverse()
            } else {
                all@
            }),
            start <= i <= end <= n,
            page@ == ordered.subrange(start as int, i as int),
        decreases end - i,
    {
        let idx = if reversed {
            n - 1 - i
        } else {
            i
        };
        page.push(all[idx]);
        proof {
            assert(ordered[i as int] == all@[idx as int]);
            assert(page@ =~= ordered.subrange(start as int, i + 1));
        }
        i = i + 1;
    }
    proof {
        assert(opts == listing_options(by_name, use_alloc));
        if offset < n {
            if limit < n - start {
                assert(page@ =~= ordered.skip(offset as int).take(limit as int));
            } else {
                assert(page@ =~= ordered.skip(offset as int));
            }
        } else {
            assert(page@ =~= Seq::<NodeId>::empty());
        }
    }
    page
}

/// Under the listing options every child is kept.
proof fn lemma_listing_keeps_all(t: &Tree, s: Seq<NodeId>, by_name: bool, use_alloc: bool)
    ensures
        kept_children(t, s, listing_options(by_name, use_alloc)) == s,
    decreases s.len(),
{
    if s.len() > 0 {
        lemma_listing_keeps_all(t, s.drop_last(), by_name, use_alloc);
        assert(s.drop_last().push(s.last()) =~= s);
    }
}

/// A folder listing is sorted: by size, a larger subtree never comes after
/// a smaller one; by name, a name never comes after one that sorts later.
pub proof fn law_listing_is_sorted(t: &Tree, node: NodeId, by_name: bool, use_alloc: bool)
    requires
        t.wf(),
        node < t.node_total(),
    ensures
        ({
            let o = child_order(t, node as int, listing_options(by_name, use_alloc));
            &&& forall|i: int, j: int|
                #![trigger o[i], o[j]]
                0 <= i < j < o.len() && !by_name ==> size_in(t, o[i] as int, use_alloc) >= size_in(
                    t,
                    o[j] as int,
                    use_alloc,
                )
            &&& forall|i: int, j: int|
                #![trigger o[i], o[j]]
                0 <= i < j < o.len() && by_name ==> !chars_lt(t.name_at(o[j] as int), t.name_at(o[i] as int))
        }),
{
    let opts = listing_options(by_name, use_alloc);
    let kids = t.kids(node as int);
    lemma_listing_keeps_all(t, kids, by_name, use_alloc);
    let f = kept_children(t, kids, opts);
    let keys = child_keys(t, f, opts);
    let names = child_names(t, f, opts);
    let tie = if opts.sort_by == SortBy::Size {
        TieBreak::Stable
    } else {
        TieBreak::NameAsc
    };
    let r = ranked(f.len() as int, keys, Seq::empty(), names, tie);
    law_ranked_is_ordered(f.len() as int, keys, Seq::empty(), names, tie);
    lemma_ranked_perm(f.len() as int, keys, Seq::empty(), names, tie);
    let o = child_order(t, node as int, opts);
    assert(o == r.map_values(|p: int| f[p]));
    assert forall|i: int, j: int| #![trigger o[i], o[j]] 0 <= i < j < o.len() && !by_name implies size_in(
        t,
        o[i] as int,
        use_alloc,
    ) >= size_in(t, o[j] as int, use_alloc) by {
        assert(o[i] == f[r[i]] && o[j] == f[r[j]]);
        assert(!rank_lt(keys, Seq::empty(), names, tie, r[j], r[i]));
    }
    assert forall|i: int, j: int| #![trigger o[i], o[j]] 0 <= i < j < o.len() && by_name implies !chars_lt(
        t.name_at(o[j] as int),
        t.name_at(o[i] as int),
    ) by {
        assert(o[i] == f[r[i]] && o[j] == f[r[j]]);
        assert(!rank_lt(keys, Seq::empty(), names, tie, r[j], r[i]));
    }
}

/// A listing taken whole, from the first entry and with room for every
/// child, holds each child of the folder exactly once, in either order.
pub proof fn law_whole_listing_holds_each_child_once(
    t: &Tree,
    node: NodeId,
    by_name: bool,
    reversed: bool,
    use_alloc: bool,
    limit: int,
)
    requires
        t.wf(),
        node < t.node_total(),
        limit >= t.kids(node as int).len(),
    ensures
        page_of(t, node as int, by_name, reversed, use_alloc, 0, limit).len() == t.kids(
            node as int,
        ).len(),
        page_of(t, node as int, by_name, reversed, use_alloc, 0, limit).no_duplicates(),
        forall|c: NodeId|
            page_of(t, node as int, by_name, reversed, use_alloc, 0, limit).contains(c)
                <==> t.kids(node as int).contains(c),
{
    let o = listing_options(by_name, use_alloc);
    let kids = t.kids(node as int);
    lemma_listing_keeps_all(t, kids, by_name, use_alloc);
    lemma_child_order(t, node as int, o);
    let all = child_order(t, node as int, o);
    crate::sort::lemma_ranked_perm(
        kids.len() as int,
        crate::export::child_keys(t, kids, o),
        Seq::empty(),
        crate::export::child_names(t, kids, o),
        if o.sort_by == SortBy::Size {
            crate::sort::TieBreak::Stable
        } else {
            crate::sort::TieBreak::NameAsc
        },
    );
    assert(all.len() == kids.len());
    let p = page_of(t, node as int, by_name, reversed, use_alloc, 0, limit);
    let ordered = if reversed {
        all.reverse()
    } else {
        all
    };
    if ordered.len() > 0 {
        assert(ordered.skip(0) =~= ordered);
    }
    assert(p == ordered);
    assert forall|i: int, j: int| 0 <= i < p.len() && 0 <= j < p.len() && i != j implies p[i]
        != p[j] by {
        if reversed {
            assert(p[i] == all[all.len() - 1 - i]);
            assert(p[j] == all[all.len() - 1 - j]);
        }
    }
    assert forall|c: NodeId| p.contains(c) implies kids.contains(c) by {
        let k = choose|k: int| 0 <= k < p.len() && p[k] == c;
        if reversed {
            assert(p[k] == all[all.len() - 1 - k]);
        } else {
            assert(p[k] == all[k]);
        }
    }
    // The listing's entries are distinct children, as many as there are
    // children, so they are all of them.
    broadcast use vstd::set::group_set_axioms, vstd::seq_lib::seq_to_set_is_finite;
    p.unique_seq_to_set();
    kids.lemma_cardinality_of_set();
    assert(p.to_set().subset_of(kids.to_set()));
    vstd::set_lib::lemma_len_subset(p.to_set(), kids.to_set());
    vstd::set_lib::lemma_subset_equality(p.to_set(), kids.to_set());
    assert forall|c: NodeId| kids.contains(c) implies p.contains(c) by {
        assert(kids.to_set().contains(c));
        assert(p.to_set().contains(c));
    }
}

} // verus!
