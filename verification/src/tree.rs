//! The scan result: a tree built in two passes.
//!
//! Engines emit unordered `(parent, name, size, flags)` records via
//! [`TreeBuilder`]. [`TreeBuilder::finalize`] then:
//! 1. reattaches records whose parent is missing or is themselves under a
//!    synthetic `<unlinked>` node, so no bytes are lost,
//! 2. counting-sorts nodes by parent so each node's children become one
//!    contiguous, increasing slice, and
//! 3. folds every node into its parent, children first, to roll up
//!    subtree sizes and file counts.
//!
//! Everything is indexed by `u32` ([`NodeId`]).

use vstd::prelude::*;
use vstd::string::{StringExecFns, StringSliceAdditionalSpecFns};
use vstd::utf8::encode_utf8;

use crate::csr::{
    child_starts, count_children, count_kids, csr_layout, fill_order, fold_into_parents,
    fold_order_ok, kids_before, kids_of, lemma_kids_before_mono, lemma_kids_before_total,
    lemma_kids_contains, lemma_kids_element, lemma_total_vals_prefix, parents_in_range, sum_vals,
    total_vals,
};
use crate::flags::NodeFlags;
use crate::sort::{sort_ids_desc, sorted_desc};
use crate::digest::{char_width, fit_count, lemma_fit_count_bounds};
use crate::text::{chars_of, extension_key, extension_key_of, string_from_chars};

verus! {

pub type NodeId = u32;

/// The synthetic root every [`TreeBuilder`] starts with.
pub const ROOT: NodeId = 0;

/// Longest name kept, in bytes; longer names are cut there.
pub const MAX_NAME_BYTES: usize = 65535;

/// One record as emitted by a scan engine, before the tree is built.
pub struct RawNode {
    pub parent: NodeId,
    pub name: String,
    pub size_logical: u64,
    pub size_alloc: u64,
    pub mtime: i64,
    pub flags: NodeFlags,
}

/// The name a pushed record keeps: its longest prefix of whole characters
/// that takes at most [`MAX_NAME_BYTES`] bytes of UTF-8 (the whole name
/// when it is that short).
pub open spec fn kept_name(raw: Seq<char>, kept: Seq<char>) -> bool {
    kept == raw.take(fit_count(raw, MAX_NAME_BYTES as int))
}

/// Accumulates raw records from a scan engine. Node 0 is the synthetic
/// root, pushed by [`TreeBuilder::new`], so real records start at id 1.
pub struct TreeBuilder {
    nodes: Vec<RawNode>,
}

impl TreeBuilder {
    #[verifier::type_invariant]
    spec fn builder_inv(self) -> bool {
        &&& 1 <= self.nodes@.len() <= u32::MAX
        &&& self.nodes@[0].flags.0 & 1 == 1
    }

    /// The records pushed so far, root first.
    pub closed spec fn records(self) -> Seq<RawNode> {
        self.nodes@
    }

    /// Whether every record names a parent pushed before it, names itself
    /// (a corrupt record), or names an id never pushed (a missing parent).
    /// A record naming a later record as its parent could close a cycle,
    /// which the rollup cannot total.
    pub open spec fn parents_precede(self) -> bool {
        forall|i: int|
            1 <= i < self.records().len() ==> {
                let p = #[trigger] self.records()[i].parent as int;
                p < i || p == i || p >= self.records().len()
            }
    }

    /// Sum of the records' logical sizes.
    pub open spec fn logical_total(self) -> int {
        total_vals(
            Seq::new(self.records().len(), |v: int| self.records()[v].size_logical),
            self.records().len() as int,
        )
    }

    /// Sum of the records' on-disk sizes.
    pub open spec fn alloc_total(self) -> int {
        total_vals(
            Seq::new(self.records().len(), |v: int| self.records()[v].size_alloc),
            self.records().len() as int,
        )
    }

    pub fn new() -> (b: TreeBuilder)
        ensures
            b.records().len() == 1,
            b.records()[0].parent == ROOT,
            b.records()[0].name@ == Seq::<char>::empty(),
            b.records()[0].size_logical == 0,
            b.records()[0].size_alloc == 0,
            b.records()[0].mtime == 0,
            b.records()[0].flags == NodeFlags::dir_flag(),
    {
        let mut nodes: Vec<RawNode> = Vec::new();
        nodes.push(
            RawNode {
                parent: ROOT,
                name: String::new(),
                size_logical: 0,
                size_alloc: 0,
                mtime: 0,
                flags: NodeFlags::dir(),
            },
        );
        assert(1u16 & 1 == 1) by (bit_vector);
        TreeBuilder { nodes }
    }

    /// Push one record, returning its assigned id.
    pub fn push(&mut self, node: RawNode) -> (id: NodeId)
        requires
            old(self).records().len() < u32::MAX,
        ensures
            id == old(self).records().len(),
            final(self).records().len() == old(self).records().len() + 1,
            forall|i: int|
                0 <= i < old(self).records().len() ==> #[trigger] final(self).records()[i] == old(self).records()[i],
            final(self).records()[id as int].parent == node.parent,
            kept_name(node.name@, final(self).records()[id as int].name@),
            final(self).records()[id as int].size_logical == node.size_logical,
            final(self).records()[id as int].size_alloc == node.size_alloc,
            final(self).records()[id as int].mtime == node.mtime,
            final(self).records()[id as int].flags == node.flags,
    {
        proof {
            use_type_invariant(&*self);
        }
        let id = self.nodes.len() as NodeId;
        let name = keep_name(node.name);
        let mut nodes: Vec<RawNode> = Vec::new();
        nodes.push(placeholder());
        std::mem::swap(&mut nodes, &mut self.nodes);
        nodes.push(
            RawNode {
                parent: node.parent,
                name,
                size_logical: node.size_logical,
                size_alloc: node.size_alloc,
                mtime: node.mtime,
                flags: node.flags,
            },
        );
        self.nodes = nodes;
        id
    }

    /// OR additional flags onto an already-pushed record.
    pub fn mark(&mut self, id: NodeId, extra: NodeFlags)
        requires
            id < old(self).records().len(),
        ensures
            final(self).records().len() == old(self).records().len(),
            forall|i: int|
                0 <= i < old(self).records().len() && i != id ==> #[trigger] final(self).records()[i] == old(self).records()[i],
            final(self).records()[id as int].parent == old(self).records()[id as int].parent,
            final(self).records()[id as int].name == old(self).records()[id as int].name,
            final(self).records()[id as int].size_logical == old(self).records()[id as int].size_logical,
            final(self).records()[id as int].size_alloc == old(self).records()[id as int].size_alloc,
            final(self).records()[id as int].mtime == old(self).records()[id as int].mtime,
            final(self).records()[id as int].flags.0 == old(self).records()[id as int].flags.0
                | extra.0,
    {
        proof {
            use_type_invariant(&*self);
        }
        let mut node = RawNode {
            parent: ROOT,
            name: String::new(),
            size_logical: 0,
            size_alloc: 0,
            mtime: 0,
            flags: NodeFlags::empty(),
        };
        let mut nodes: Vec<RawNode> = Vec::new();
        nodes.push(placeholder());
        std::mem::swap(&mut nodes, &mut self.nodes);
        nodes.set_and_swap(id as usize, &mut node);
        let ghost before = node.flags.0;
        node.flags.insert(extra);
        proof {
            let after = node.flags.0;
            let e = extra.0;
            assert(before & 1 == 1 ==> (before | e) & 1 == 1) by (bit_vector);
        }
        nodes.set_and_swap(id as usize, &mut node);
        self.nodes = nodes;
    }

    pub fn len(&self) -> (n: usize)
        ensures
            n == self.records().len(),
    {
        self.nodes.len()
    }

    /// Whether nothing but the synthetic root has been pushed.
    pub fn is_empty(&self) -> (b: bool)
        ensures
            b == (self.records().len() <= 1),
    {
        self.nodes.len() <= 1
    }
}

/// A record used only to hold a place while the real one is edited.
fn placeholder() -> (r: RawNode)
    ensures
        r.flags.0 & 1 == 1,
{
    assert(1u16 & 1 == 1) by (bit_vector);
    RawNode {
        parent: ROOT,
        name: String::new(),
        size_logical: 0,
        size_alloc: 0,
        mtime: 0,
        flags: NodeFlags::dir(),
    }
}

/// The kept form of a pushed name.
fn keep_name(name: String) -> (kept: String)
    ensures
        kept_name(name@, kept@),
{
    let cs = chars_of(name.as_str());
    let n = cs.len();
    let mut used: usize = 0;
    let mut k: usize = 0;
    proof {
        assert(cs@.skip(0) =~= cs@);
        lemma_fit_count_bounds(cs@, MAX_NAME_BYTES as int);
    }
    while k < n && used + char_width(cs[k]) <= MAX_NAME_BYTES
        invariant
            n == cs@.len(),
            cs@ == name@,
            k <= n,
            used <= MAX_NAME_BYTES,
            fit_count(cs@, MAX_NAME_BYTES as int) == k + fit_count(cs@.skip(k as int), MAX_NAME_BYTES - used),
        decreases n - k,
    {
        proof {
            assert(cs@.skip(k as int)[0] == cs@[k as int]);
            assert(cs@.skip(k as int).drop_first() =~= cs@.skip(k + 1));
        }
        used = used + char_width(cs[k]);
        k = k + 1;
    }
    proof {
        if k < n {
            assert(cs@.skip(k as int)[0] == cs@[k as int]);
        }
    }
    if k == n {
        proof {
            assert(name@.take(n as int) =~= name@);
        }
        return name;
    }
    let kept = string_from_chars(cs.as_slice(), 0, k);
    proof {
        assert(cs@.subrange(0, k as int) =~= name@.take(k as int));
    }
    kept
}

impl TreeBuilder {
    /// Whether record `i` has a parent that was never pushed, or names
    /// itself: such a record is reattached under `<unlinked>`.
    pub open spec fn is_orphan(self, i: int) -> bool {
        1 <= i < self.records().len() && (self.records()[i].parent >= self.records().len()
            || self.records()[i].parent == i)
    }

    pub open spec fn has_orphans(self) -> bool {
        exists|i: int| #[trigger] self.is_orphan(i)
    }

    /// What finalizing these records gives: `tree` keeps every record's
    /// name, sizes, time and flags, hangs each under its parent, and puts
    /// the orphans under a synthetic `<unlinked>` directory.
    pub open spec fn finalized_as(self, tree: &Tree) -> bool {
        &&& tree.wf()
        &&& tree.node_total() == if self.has_orphans() {
            self.records().len() + 1
        } else {
            self.records().len()
        }
        &&& forall|i: int|
            0 <= i < self.records().len() ==> {
                &&& #[trigger] tree.name_at(i) == self.records()[i].name@
                &&& tree.logical_at(i) == self.records()[i].size_logical
                &&& tree.alloc_at(i) == self.records()[i].size_alloc
                &&& tree.mtime_at(i) == self.records()[i].mtime
                &&& tree.flags_at(i).0 == if self.is_orphan(i) {
                    self.records()[i].flags.0 | NodeFlags::orphan_flag().0
                } else {
                    self.records()[i].flags.0
                }
                &&& i >= 1 ==> tree.parent_at(i) == if self.is_orphan(i) {
                    self.records().len() as int
                } else {
                    self.records()[i].parent as int
                }
            }
        &&& self.has_orphans() ==> {
            let u = self.records().len() as int;
            &&& tree.name_at(u) == "<unlinked>"@
            &&& tree.logical_at(u) == 0
            &&& tree.alloc_at(u) == 0
            &&& tree.mtime_at(u) == 0
            &&& tree.flags_at(u) == NodeFlags::dir_flag()
            &&& tree.parent_at(u) == ROOT
        }
    }

    /// Finalizes when the records allow it: every parent pushed before its
    /// child (or missing, or the record itself), and both size totals
    /// within `u64`. Otherwise nothing is built.
    pub fn try_finalize(self) -> (r: Option<Tree>)
        ensures
            r is Some <==> (self.parents_precede() && self.logical_total() <= u64::MAX
                && self.alloc_total() <= u64::MAX),
            r matches Some(t) ==> self.finalized_as(&t),
    {
        let n = self.nodes.len();
        let ghost recs = self.records();
        let ghost sl = Seq::new(recs.len(), |v: int| recs[v].size_logical);
        let ghost sa = Seq::new(recs.len(), |v: int| recs[v].size_alloc);
        let mut ordered = true;
        let mut logical: u128 = 0;
        let mut alloc: u128 = 0;
        let mut i: usize = 0;
        while i < n
            invariant
                i <= n == recs.len(),
                recs == self.records(),
                self.nodes@ == recs,
                sl == Seq::new(recs.len(), |v: int| recs[v].size_logical),
                sa == Seq::new(recs.len(), |v: int| recs[v].size_alloc),
                ordered <==> forall|j: int|
                    1 <= j < i ==> {
                        let p = #[trigger] recs[j].parent as int;
                        p < j || p == j || p >= recs.len()
                    },
                logical == total_vals(sl, i as int),
                alloc == total_vals(sa, i as int),
                logical <= i * 0xffff_ffff_ffff_ffffu128,
                alloc <= i * 0xffff_ffff_ffff_ffffu128,
            decreases n - i,
        {
            let p = self.nodes[i].parent as usize;
            if i >= 1 && !(p < i || p == i || p >= n) {
                ordered = false;
            }
            proof {
                assert(sl[i as int] == self.nodes@[i as int].size_logical);
                assert(sa[i as int] == self.nodes@[i as int].size_alloc);
                assert((i + 1) * 0xffff_ffff_ffff_ffffu128 == i * 0xffff_ffff_ffff_ffffu128 + 0xffff_ffff_ffff_ffffu128) by (nonlinear_arith);
                assert(i * 0xffff_ffff_ffff_ffffu128 + 0xffff_ffff_ffff_ffffu128 <= 0x1_0000_0000_0000_0000u128 * 0xffff_ffff_ffff_ffffu128) by (nonlinear_arith)
                    requires i < 0x1_0000_0000_0000_0000u128;
            }
            logical = logical + self.nodes[i].size_logical as u128;
            alloc = alloc + self.nodes[i].size_alloc as u128;
            i = i + 1;
        }
        if ordered && logical <= 0xffff_ffff_ffff_ffff && alloc <= 0xffff_ffff_ffff_ffff {
            Some(self.finalize())
        } else {
            None
        }
    }

    /// Consume the builder, reattach orphans under a synthetic
    /// `<unlinked>` node (id `len()`), lay children out by parent and roll
    /// up subtree totals.
    pub fn finalize(self) -> (tree: Tree)
        requires
            self.parents_precede(),
            self.logical_total() <= u64::MAX,
            self.alloc_total() <= u64::MAX,
        ensures
            self.finalized_as(&tree),
    {
        proof {
            use_type_invariant(&self);
        }
        let ghost recs = self.records();
        let n = self.nodes.len();
        let mut nodes = self.nodes;

        let mut has_orphans = false;
        let mut i: usize = 1;
        while i < n
            invariant
                1 <= i <= n == recs.len(),
                nodes@ == recs,
                recs == self.records(),
                has_orphans <==> exists|j: int| 1 <= j < i && #[trigger] self.is_orphan(j),
            decreases n - i,
        {
            let p = nodes[i].parent as usize;
            if p >= n || p == i {
                assert(self.is_orphan(i as int));
                has_orphans = true;
            }
            proof {
                if !has_orphans {
                    assert forall|j: int| 1 <= j < i + 1 implies !#[trigger] self.is_orphan(j) by {}
                }
            }
            i = i + 1;
        }
        proof {
            if has_orphans {
                let j = choose|j: int| 1 <= j < n && #[trigger] self.is_orphan(j);
                assert(self.is_orphan(j));
            } else {
                assert forall|j: int| !#[trigger] self.is_orphan(j) by {}
            }
        }

        let mut parent: Vec<NodeId> = Vec::new();
        let mut flags: Vec<NodeFlags> = Vec::new();
        let mut own_logical: Vec<u64> = Vec::new();
        let mut own_alloc: Vec<u64> = Vec::new();
        let mut own_files: Vec<u64> = Vec::new();
        let mut k: usize = 0;
        while k < n
            invariant
                k <= n == recs.len(),
                n <= u32::MAX,
                nodes@ == recs,
                recs == self.records(),
                has_orphans == self.has_orphans(),
                parent@.len() == k,
                flags@.len() == k,
                own_logical@.len() == k,
                own_alloc@.len() == k,
                own_files@.len() == k,
                forall|j: int|
                    0 <= j < k ==> #[trigger] parent@[j] == if self.is_orphan(j) {
                        n as u32
                    } else {
                        recs[j].parent
                    },
                forall|j: int|
                    0 <= j < k ==> (#[trigger] flags@[j]).0 == if self.is_orphan(j) {
                        recs[j].flags.0 | 128
                    } else {
                        recs[j].flags.0
                    },
                forall|j: int| 0 <= j < k ==> #[trigger] own_logical@[j] == recs[j].size_logical,
                forall|j: int| 0 <= j < k ==> #[trigger] own_alloc@[j] == recs[j].size_alloc,
                forall|j: int|
                    0 <= j < k ==> #[trigger] own_files@[j] == if j != 0 && !flags@[j].has(
                        NodeFlags::dir_flag(),
                    ) {
                        1u64
                    } else {
                        0u64
                    },
            decreases n - k,
        {
            let node = &nodes[k];
            let p = node.parent;
            let orphan = k >= 1 && (p as usize >= n || p as usize == k);
            assert(orphan == self.is_orphan(k as int));
            let f = if orphan {
                node.flags.union(NodeFlags::orphan())
            } else {
                node.flags
            };
            parent.push(if orphan { n as u32 } else { p });
            flags.push(f);
            own_logical.push(node.size_logical);
            own_alloc.push(node.size_alloc);
            own_files.push(if k >= 1 && !f.contains(NodeFlags::dir()) { 1 } else { 0 });
            k = k + 1;
        }

        if has_orphans {
            nodes.push(
                RawNode {
                    parent: ROOT,
                    name: String::from_str("<unlinked>"),
                    size_logical: 0,
                    size_alloc: 0,
                    mtime: 0,
                    flags: NodeFlags::dir(),
                },
            );
            parent.push(ROOT);
            flags.push(NodeFlags::dir());
            own_logical.push(0);
            own_alloc.push(0);
            own_files.push(0);
        }
        let total = parent.len();
        let ghost t = total as int;
        let ghost par = parent@;
        proof {
            assert(parents_in_range(par, t)) by {
                assert forall|c: int| 1 <= c < t implies (#[trigger] par[c]) < t by {
                    if c < n {
                        assert(par[c] == if self.is_orphan(c) { n as u32 } else { recs[c].parent });
                    }
                }
            }
            assert(fold_order_ok(par, n as int, has_orphans)) by {
                assert forall|c: int| 1 <= c < n implies (#[trigger] par[c] < c || (has_orphans
                    && par[c] == n)) by {
                    assert(par[c] == if self.is_orphan(c) { n as u32 } else { recs[c].parent });
                }
            }
        }
        let child_len = count_children(&parent);
        let child_start = child_starts(&parent, &child_len);
        let order = fill_order(&parent, &child_start);
        proof {
            assert(csr_layout(par, child_start@, child_len@, order@, t)) by {
                assert forall|p: int| 0 <= p < t implies {
                    &&& #[trigger] child_start@[p] == kids_before(par, p, t)
                    &&& child_len@[p] == count_kids(par, p, t)
                    &&& child_start@[p] + child_len@[p] <= t - 1
                } by {
                    lemma_kids_before_mono(par, p, t, t);
                    lemma_kids_before_total(par, t, t);
                }
            }
        }

        let ghost own_l = own_logical@;
        let ghost own_a = own_alloc@;
        let ghost own_f = own_files@;
        proof {
            let rl = Seq::new(recs.len(), |v: int| recs[v].size_logical);
            let ra = Seq::new(recs.len(), |v: int| recs[v].size_alloc);
            assert forall|v: int| 0 <= v < n implies #[trigger] own_l[v] == rl[v] by {}
            assert forall|v: int| 0 <= v < n implies #[trigger] own_a[v] == ra[v] by {}
            lemma_total_vals_prefix(own_l, rl, n as int);
            lemma_total_vals_prefix(own_a, ra, n as int);
            assert(total_vals(own_l, t) == total_vals(own_l, n as int));
            assert(total_vals(own_a, t) == total_vals(own_a, n as int));
            lemma_total_vals_unit_count(own_f, t);
        }
        let mut subtree_logical = own_logical;
        fold_into_parents(&mut subtree_logical, &parent, &child_start, &child_len, &order, n, has_orphans);
        let mut subtree_alloc = own_alloc;
        fold_into_parents(&mut subtree_alloc, &parent, &child_start, &child_len, &order, n, has_orphans);
        let mut file_count = own_files;
        fold_into_parents(&mut file_count, &parent, &child_start, &child_len, &order, n, has_orphans);

        let ghost has = has_orphans;
        let ghost ni = n as int;
        let ghost rank = Seq::new(
            total as nat,
            |v: int|
                if v == 0 {
                    0nat
                } else if has && v == ni {
                    1nat
                } else {
                    (v + 1) as nat
                },
        );
        let tree = Tree {
            nodes,
            parent,
            flags,
            child_start,
            child_len,
            order,
            subtree_logical,
            subtree_alloc,
            file_count,
            rank: Ghost(rank),
        };
        proof {
            reveal_strlit("<unlinked>");
            assert(tree.own_logical() =~= own_l);
            assert(tree.own_alloc() =~= own_a);
            assert(tree.own_files() =~= own_f) by {
                assert forall|v: int| 0 <= v < t implies #[trigger] tree.own_files()[v] == own_f[v] by {
                    if v >= n {
                        assert(flags@[v] == NodeFlags::dir_flag());
                        assert(NodeFlags::dir_flag().0 & 1 == 1) by (bit_vector);
                    }
                }
            }
            assert forall|c: int| 1 <= c < t implies #[trigger] rank[par[c] as int] < rank[c] by {
                if c < n {
                    assert(par[c] == if self.is_orphan(c) { n as u32 } else { recs[c].parent });
                }
            }
            assert forall|i: int| 0 <= i < n implies #[trigger] tree.flags_at(i).0 == if self.is_orphan(i) {
                recs[i].flags.0 | NodeFlags::orphan_flag().0
            } else {
                recs[i].flags.0
            } by {}
        }
        tree
    }
}

/// A set of counts that are 0 for the root and at most 1 elsewhere totals
/// at most one less than their number.
proof fn lemma_total_vals_unit_count(vals: Seq<u64>, hi: int)
    requires
        1 <= hi <= vals.len(),
        vals[0] == 0,
        forall|v: int| 1 <= v < hi ==> #[trigger] vals[v] <= 1,
    ensures
        total_vals(vals, hi) <= hi - 1,
    decreases hi,
{
    if hi > 1 {
        lemma_total_vals_unit_count(vals, hi - 1);
    } else {
        assert(total_vals(vals, 0) == 0);
    }
}

/// A finalized, immutable scan tree. The children of any node are a
/// contiguous, increasing slice of ids, so lookups are O(1).
pub struct Tree {
    nodes: Vec<RawNode>,
    parent: Vec<NodeId>,
    flags: Vec<NodeFlags>,
    child_start: Vec<u32>,
    child_len: Vec<u32>,
    order: Vec<NodeId>,
    subtree_logical: Vec<u64>,
    subtree_alloc: Vec<u64>,
    file_count: Vec<u64>,
    /// Strictly grows from parent to child, which is what rules out
    /// parent cycles.
    rank: Ghost<Seq<nat>>,
}

impl Tree {
    pub closed spec fn node_total(&self) -> nat {
        self.parent@.len()
    }

    pub closed spec fn name_at(&self, v: int) -> Seq<char> {
        self.nodes@[v].name@
    }

    pub closed spec fn parent_at(&self, v: int) -> int {
        self.parent@[v] as int
    }

    pub closed spec fn flags_at(&self, v: int) -> NodeFlags {
        self.flags@[v]
    }

    pub closed spec fn mtime_at(&self, v: int) -> i64 {
        self.nodes@[v].mtime
    }

    /// A node's own logical size (0 for directories).
    pub closed spec fn logical_at(&self, v: int) -> u64 {
        self.nodes@[v].size_logical
    }

    /// A node's own on-disk size.
    pub closed spec fn alloc_at(&self, v: int) -> u64 {
        self.nodes@[v].size_alloc
    }

    pub closed spec fn subtree_logical_at(&self, v: int) -> u64 {
        self.subtree_logical@[v]
    }

    pub closed spec fn subtree_alloc_at(&self, v: int) -> u64 {
        self.subtree_alloc@[v]
    }

    pub closed spec fn files_at(&self, v: int) -> u64 {
        self.file_count@[v]
    }

    /// The children of `v`, in increasing id order.
    pub closed spec fn kids(&self, v: int) -> Seq<NodeId> {
        kids_of(self.child_start@, self.child_len@, self.order@, v)
    }

    pub closed spec fn rank_at(&self, v: int) -> nat {
        self.rank@[v]
    }

    pub open spec fn is_dir_at(&self, v: int) -> bool {
        self.flags_at(v).has(NodeFlags::dir_flag())
    }

    pub closed spec fn own_logical(&self) -> Seq<u64> {
        Seq::new(self.node_total(), |v: int| self.nodes@[v].size_logical)
    }

    pub closed spec fn own_alloc(&self) -> Seq<u64> {
        Seq::new(self.node_total(), |v: int| self.nodes@[v].size_alloc)
    }

    /// 1 for every file, 0 for directories and the root.
    pub closed spec fn own_files(&self) -> Seq<u64> {
        Seq::new(
            self.node_total(),
            |v: int|
                if v != 0 && !self.flags@[v].has(NodeFlags::dir_flag()) {
                    1u64
                } else {
                    0u64
                },
        )
    }

    pub closed spec fn subtree_logical_seq(&self) -> Seq<u64> {
        self.subtree_logical@
    }

    pub closed spec fn subtree_alloc_seq(&self) -> Seq<u64> {
        self.subtree_alloc@
    }

    pub closed spec fn files_seq(&self) -> Seq<u64> {
        self.file_count@
    }

    pub closed spec fn wf(&self) -> bool {
        let t = self.parent@.len() as int;
        &&& 1 <= t <= u32::MAX as int + 1
        &&& self.nodes@.len() == t
        &&& self.flags@.len() == t
        &&& self.subtree_logical@.len() == t
        &&& self.subtree_alloc@.len() == t
        &&& self.file_count@.len() == t
        &&& csr_layout(self.parent@, self.child_start@, self.child_len@, self.order@, t)
        &&& self.rank@.len() == t
        &&& forall|c: int| 1 <= c < t ==> #[trigger] self.rank@[self.parent@[c] as int] < self.rank@[c]
        &&& forall|v: int| 0 <= v < t ==> #[trigger] self.rank@[v] <= t
        &&& forall|v: int|
            0 <= v < t ==> #[trigger] self.subtree_logical@[v] == self.own_logical()[v] + sum_vals(
                self.kids(v),
                self.subtree_logical@,
            )
        &&& forall|v: int|
            0 <= v < t ==> #[trigger] self.subtree_alloc@[v] == self.own_alloc()[v] + sum_vals(
                self.kids(v),
                self.subtree_alloc@,
            )
        &&& forall|v: int|
            0 <= v < t ==> #[trigger] self.file_count@[v] == self.own_files()[v] + sum_vals(
                self.kids(v),
                self.file_count@,
            )
        &&& self.subtree_logical@[0] == total_vals(self.own_logical(), t)
        &&& self.subtree_alloc@[0] == total_vals(self.own_alloc(), t)
        &&& self.file_count@[0] == total_vals(self.own_files(), t)
        &&& forall|v: int| 0 <= v < t ==> #[trigger] self.file_count@[v] < t
        &&& self.flags@[0].0 & 1 == 1
    }
}

impl Tree {
    pub fn node_count(&self) -> (n: usize)
        requires
            self.wf(),
        ensures
            n == self.node_total(),
    {
        self.parent.len()
    }

    pub fn name(&self, id: NodeId) -> (s: &str)
        requires
            self.wf(),
            id < self.node_total(),
        ensures
            s@ == self.name_at(id as int),
    {
        self.nodes[id as usize].name.as_str()
    }

    pub fn parent_of(&self, id: NodeId) -> (p: Option<NodeId>)
        requires
            self.wf(),
            id < self.node_total(),
        ensures
            p == if id == ROOT {
                None::<NodeId>
            } else {
                Some(self.parent_at(id as int) as NodeId)
            },
            p matches Some(q) ==> q < self.node_total(),
    {
        if id == ROOT {
            None
        } else {
            Some(self.parent[id as usize])
        }
    }

    pub fn is_dir(&self, id: NodeId) -> (b: bool)
        requires
            self.wf(),
            id < self.node_total(),
        ensures
            b == self.is_dir_at(id as int),
    {
        self.flags[id as usize].contains(NodeFlags::dir())
    }

    pub fn flags(&self, id: NodeId) -> (f: NodeFlags)
        requires
            self.wf(),
            id < self.node_total(),
        ensures
            f == self.flags_at(id as int),
    {
        self.flags[id as usize]
    }

    pub fn mtime(&self, id: NodeId) -> (m: i64)
        requires
            self.wf(),
            id < self.node_total(),
        ensures
            m == self.mtime_at(id as int),
    {
        self.nodes[id as usize].mtime
    }

    /// Own size (0 for directories; use [`Tree::subtree_logical`] for that).
    pub fn size_logical(&self, id: NodeId) -> (n: u64)
        requires
            self.wf(),
            id < self.node_total(),
        ensures
            n == self.logical_at(id as int),
    {
        self.nodes[id as usize].size_logical
    }

    pub fn size_alloc(&self, id: NodeId) -> (n: u64)
        requires
            self.wf(),
            id < self.node_total(),
        ensures
            n == self.alloc_at(id as int),
    {
        self.nodes[id as usize].size_alloc
    }

    pub fn subtree_logical(&self, id: NodeId) -> (n: u64)
        requires
            self.wf(),
            id < self.node_total(),
        ensures
            n == self.subtree_logical_at(id as int),
    {
        self.subtree_logical[id as usize]
    }

    pub fn subtree_alloc(&self, id: NodeId) -> (n: u64)
        requires
            self.wf(),
            id < self.node_total(),
        ensures
            n == self.subtree_alloc_at(id as int),
    {
        self.subtree_alloc[id as usize]
    }

    /// Number of files (non-directories) in the subtree of `id`.
    pub fn file_count(&self, id: NodeId) -> (n: u32)
        requires
            self.wf(),
            id < self.node_total(),
        ensures
            n == self.files_at(id as int),
    {
        self.file_count[id as usize] as u32
    }

    /// Children of `id`, in increasing id order.
    pub fn children(&self, id: NodeId) -> (kids: &[NodeId])
        requires
            self.wf(),
            id < self.node_total(),
        ensures
            kids@ == self.kids(id as int),
            forall|k: int|
                0 <= k < kids@.len() ==> #[trigger] kids@[k] < self.node_total() && 1 <= kids@[k]
                    && self.parent_at(kids@[k] as int) == id,
            forall|a: int, b: int| 0 <= a < b < kids@.len() ==> kids@[a] < kids@[b],
    {
        let start = self.child_start[id as usize] as usize;
        let len = self.child_len[id as usize] as usize;
        let kids = vstd::slice::slice_subrange(self.order.as_slice(), start, start + len);
        proof {
            self.lemma_kids_facts(id as int);
        }
        kids
    }

    proof fn lemma_kids_facts(&self, v: int)
        requires
            self.wf(),
            0 <= v < self.node_total(),
        ensures
            self.kids(v).len() == self.child_len@[v],
            self.child_start@[v] + self.child_len@[v] <= self.order@.len(),
            forall|k: int|
                0 <= k < self.kids(v).len() ==> #[trigger] self.kids(v)[k] < self.node_total() && 1
                    <= self.kids(v)[k] && self.parent_at(self.kids(v)[k] as int) == v,
            forall|a: int, b: int|
                0 <= a < b < self.kids(v).len() ==> self.kids(v)[a] < self.kids(v)[b],
    {
        let t = self.node_total() as int;
        assert forall|k: int| 0 <= k < self.kids(v).len() implies #[trigger] self.kids(v)[k]
            < self.node_total() && 1 <= self.kids(v)[k] && self.parent_at(self.kids(v)[k] as int)
            == v by {
            lemma_kids_element(self.parent@, self.child_start@, self.child_len@, self.order@, t, v, k);
        }
        assert forall|a: int, b: int| 0 <= a < b < self.kids(v).len() implies self.kids(v)[a]
            < self.kids(v)[b] by {
            lemma_kids_element(self.parent@, self.child_start@, self.child_len@, self.order@, t, v, a);
            lemma_kids_element(self.parent@, self.child_start@, self.child_len@, self.order@, t, v, b);
            let ca = self.kids(v)[a] as int;
            let cb = self.kids(v)[b] as int;
            if cb <= ca {
                crate::csr::lemma_count_kids_mono(self.parent@, v, cb, ca);
                crate::csr::lemma_count_kids_strict(self.parent@, v, cb, ca + 1);
                if cb < ca {
                    crate::csr::lemma_count_kids_strict(self.parent@, v, cb, ca);
                }
            }
        }
    }
}

/// Laws of a finalized tree.
impl Tree {
    /// Every node's subtree total is its own size plus its children's
    /// subtree totals, in both size modes, and likewise its file count.
    pub proof fn law_rollup(&self, v: int)
        requires
            self.wf(),
            0 <= v < self.node_total(),
        ensures
            self.subtree_logical_at(v) == self.logical_at(v) + sum_vals(
                self.kids(v),
                self.subtree_logical_seq(),
            ),
            self.subtree_alloc_at(v) == self.alloc_at(v) + sum_vals(
                self.kids(v),
                self.subtree_alloc_seq(),
            ),
            self.files_at(v) == (if v != 0 && !self.is_dir_at(v) {
                1int
            } else {
                0int
            }) + sum_vals(self.kids(v), self.files_seq()),
    {
        assert(self.subtree_logical@[v] == self.own_logical()[v] + sum_vals(
            self.kids(v),
            self.subtree_logical@,
        ));
        assert(self.subtree_alloc@[v] == self.own_alloc()[v] + sum_vals(
            self.kids(v),
            self.subtree_alloc@,
        ));
        assert(self.file_count@[v] == self.own_files()[v] + sum_vals(self.kids(v), self.file_count@));
    }

    /// No byte is lost: the root's totals are the sums over every node of
    /// the tree, and its file count is the number of files.
    pub proof fn law_root_holds_everything(&self)
        requires
            self.wf(),
        ensures
            self.subtree_logical_at(0) == total_vals(self.own_logical(), self.node_total() as int),
            self.subtree_alloc_at(0) == total_vals(self.own_alloc(), self.node_total() as int),
            self.files_at(0) == total_vals(self.own_files(), self.node_total() as int),
            forall|v: int|
                0 <= v < self.node_total() ==> #[trigger] self.own_logical()[v] == self.logical_at(v)
                    && self.own_alloc()[v] == self.alloc_at(v) && self.own_files()[v] == if v != 0
                    && !self.is_dir_at(v) {
                    1u64
                } else {
                    0u64
                },
    {
    }

    /// The children of `v` are exactly the nodes that name `v` as their
    /// parent, each listed once, in increasing order.
    pub proof fn law_children_are_the_nodes_naming_the_parent(&self, v: int, c: int)
        requires
            self.wf(),
            0 <= v < self.node_total(),
            0 <= c <= u32::MAX,
        ensures
            self.kids(v).contains(c as NodeId) <==> (1 <= c < self.node_total() && self.parent_at(c)
                == v),
            forall|a: int, b: int|
                0 <= a < b < self.kids(v).len() ==> self.kids(v)[a] < self.kids(v)[b],
    {
        crate::csr::lemma_kids_membership(
            self.parent@,
            self.child_start@,
            self.child_len@,
            self.order@,
            self.node_total() as int,
            v,
            c,
        );
        self.lemma_kids_facts(v);
    }

    /// Parents come strictly before children in a fixed ranking, so
    /// following parents from any node always ends at the root.
    pub proof fn law_parents_rank_below_children(&self, c: int)
        requires
            self.wf(),
            1 <= c < self.node_total(),
        ensures
            0 <= self.parent_at(c) < self.node_total(),
            self.rank_at(self.parent_at(c)) < self.rank_at(c),
            self.rank_at(c) <= self.node_total(),
    {
        assert(self.rank@[self.parent@[c] as int] < self.rank@[c]);
        assert(self.rank@[c] <= self.node_total());
    }
}

/// `parts` joined with `sep` between neighbours.
pub open spec fn join(parts: Seq<Seq<char>>, sep: Seq<char>) -> Seq<char>
    decreases parts.len(),
{
    if parts.len() == 0 {
        Seq::empty()
    } else if parts.len() == 1 {
        parts[0]
    } else {
        join(parts.drop_last(), sep) + sep + parts.last()
    }
}

impl Tree {
    /// The non-empty names from the root down to `v`.
    pub closed spec fn path_parts(&self, v: int) -> Seq<Seq<char>>
        decreases self.rank_at(v),
        when self.wf() && 0 <= v < self.node_total()
    {
        let up = if v == 0 {
            Seq::empty()
        } else {
            self.path_parts(self.parent@[v] as int)
        };
        if self.name_at(v).len() > 0 {
            up.push(self.name_at(v))
        } else {
            up
        }
    }

    /// Full path from the root to `id`, joined with `sep`. Empty names
    /// (the synthetic root's) are skipped, so a drive scan renders as
    /// `C:\Users\...` rather than `\C:\Users\...`.
    pub fn path(&self, id: NodeId, sep: &str) -> (p: String)
        requires
            self.wf(),
            id < self.node_total(),
        ensures
            p@ == join(self.path_parts(id as int), sep@),
    {
        let mut parts: Vec<&str> = Vec::new();
        let ghost mut acc: Seq<Seq<char>> = Seq::empty();
        let mut cur = id;
        loop
            invariant_except_break
                self.wf(),
                cur < self.node_total(),
                self.path_parts(id as int) == self.path_parts(cur as int) + acc,
                acc.len() == parts@.len(),
                forall|k: int| 0 <= k < acc.len() ==> #[trigger] acc[k] == parts@[parts@.len() - 1 - k]@,
            ensures
                self.path_parts(id as int) == acc,
                acc.len() == parts@.len(),
                forall|k: int| 0 <= k < acc.len() ==> #[trigger] acc[k] == parts@[parts@.len() - 1 - k]@,
            decreases self.rank_at(cur as int),
        {
            let name = self.name(cur);
            let ghost before = acc;
            let ghost old_parts = parts@;
            if !name.is_empty() {
                parts.push(name);
                proof {
                    acc = seq![name@] + acc;
                    assert forall|k: int| 0 <= k < acc.len() implies #[trigger] acc[k]
                        == parts@[parts@.len() - 1 - k]@ by {
                        if k > 0 {
                            assert(acc[k] == before[k - 1]);
                        }
                    }
                }
            }
            proof {
                let up = if cur == 0 {
                    Seq::<Seq<char>>::empty()
                } else {
                    self.path_parts(self.parent@[cur as int] as int)
                };
                if name@.len() > 0 {
                    assert(self.path_parts(cur as int) == up.push(name@));
                    assert(up.push(name@) + before =~= up + acc);
                } else {
                    assert(self.path_parts(cur as int) == up);
                }
                assert(self.path_parts(id as int) == up + acc);
                if cur != 0 {
                    self.law_parents_rank_below_children(cur as int);
                }
            }
            match self.parent_of(cur) {
                Some(p) => cur = p,
                None => {
                    assert(Seq::<Seq<char>>::empty() + acc =~= acc);
                    break;
                },
            }
        }
        let mut out = String::new();
        let m = parts.len();
        let mut j: usize = 0;
        while j < m
            invariant
                m == parts@.len() == acc.len(),
                j <= m,
                forall|k: int| 0 <= k < acc.len() ==> #[trigger] acc[k] == parts@[parts@.len() - 1 - k]@,
                out@ == join(acc.take(j as int), sep@),
            decreases m - j,
        {
            if j > 0 {
                out.append(sep);
            }
            out.append(parts[m - 1 - j]);
            proof {
                let t = acc.take(j as int + 1);
                assert(t.drop_last() =~= acc.take(j as int));
                assert(t.last() == acc[j as int]);
                if j == 0 {
                    assert(out@ =~= join(t, sep@));
                }
            }
            j = j + 1;
        }
        proof {
            assert(acc.take(m as int) =~= acc);
        }
        out
    }
}

impl Tree {
    /// Depth-first order of the subtree of `v`: `v` itself, then the
    /// subtree of each child, last child first (the order an explicit
    /// stack walk produces). `fuel` bounds the depth explored.
    pub closed spec fn walk(&self, v: int, fuel: nat) -> Seq<NodeId>
        decreases fuel, 0nat,
    {
        if fuel == 0 {
            seq![v as NodeId]
        } else {
            seq![v as NodeId] + self.walk_list(self.kids(v), (fuel - 1) as nat)
        }
    }

    /// The walks of the nodes in `s`, last node first.
    pub closed spec fn walk_list(&self, s: Seq<NodeId>, fuel: nat) -> Seq<NodeId>
        decreases fuel, s.len() + 1,
    {
        if s.len() == 0 {
            Seq::empty()
        } else {
            self.walk(s.last() as int, fuel) + self.walk_list(s.drop_last(), fuel)
        }
    }

    /// The walks of the stacked nodes, top of the stack first.
    closed spec fn walk_stack(&self, stack: Seq<NodeId>, fuels: Seq<nat>) -> Seq<NodeId>
        decreases stack.len(),
    {
        if stack.len() == 0 || fuels.len() == 0 {
            Seq::empty()
        } else {
            self.walk(stack.last() as int, fuels.last()) + self.walk_stack(
                stack.drop_last(),
                fuels.drop_last(),
            )
        }
    }

    /// Every node of the subtree of `v`, `v` first, in depth-first order.
    pub closed spec fn subtree_order(&self, v: int) -> Seq<NodeId> {
        self.walk(v, self.node_total() + 1)
    }

    proof fn lemma_walk_nonempty(&self, v: int, fuel: nat)
        ensures
            self.walk(v, fuel).len() >= 1,
            self.walk(v, fuel)[0] == v as NodeId,
    {
        if fuel > 0 {
            assert((seq![v as NodeId] + self.walk_list(self.kids(v), (fuel - 1) as nat))[0]
                == v as NodeId);
        }
    }

    proof fn lemma_walk_in_range(&self, v: int, fuel: nat)
        requires
            self.wf(),
            0 <= v < self.node_total(),
        ensures
            forall|k: int|
                0 <= k < self.walk(v, fuel).len() ==> #[trigger] self.walk(v, fuel)[k]
                    < self.node_total(),
        decreases fuel, 0nat,
    {
        if fuel > 0 {
            self.lemma_kids_facts(v);
            self.lemma_walk_list_in_range(self.kids(v), (fuel - 1) as nat);
            let w = self.walk(v, fuel);
            let l = self.walk_list(self.kids(v), (fuel - 1) as nat);
            assert forall|k: int| 0 <= k < w.len() implies #[trigger] w[k] < self.node_total() by {
                if k > 0 {
                    assert(w[k] == l[k - 1]);
                }
            }
        }
    }

    proof fn lemma_walk_list_in_range(&self, s: Seq<NodeId>, fuel: nat)
        requires
            self.wf(),
            forall|k: int| 0 <= k < s.len() ==> #[trigger] s[k] < self.node_total(),
        ensures
            forall|k: int|
                0 <= k < self.walk_list(s, fuel).len() ==> #[trigger] self.walk_list(s, fuel)[k]
                    < self.node_total(),
        decreases fuel, s.len() + 1,
    {
        if s.len() > 0 {
            let t = s.drop_last();
            assert forall|k: int| 0 <= k < t.len() implies #[trigger] t[k] < self.node_total() by {
                assert(t[k] == s[k]);
            }
            assert(s.last() == s[s.len() - 1]);
            self.lemma_walk_in_range(s.last() as int, fuel);
            self.lemma_walk_list_in_range(t, fuel);
            let a = self.walk(s.last() as int, fuel);
            let b = self.walk_list(t, fuel);
            assert forall|k: int| 0 <= k < (a + b).len() implies #[trigger] (a + b)[k]
                < self.node_total() by {
                if k >= a.len() {
                    assert((a + b)[k] == b[k - a.len()]);
                }
            }
        }
    }

    /// Depth-first walk of `root` and every descendant, `root` first. No
    /// recursion, so an arbitrarily deep subtree cannot exhaust the stack.
    pub fn descendants(&self, root: NodeId) -> (out: Vec<NodeId>)
        requires
            self.wf(),
            root < self.node_total(),
        ensures
            out@ == self.subtree_order(root as int),
            out@.len() >= 1,
            out@[0] == root,
            forall|k: int| 0 <= k < out@.len() ==> #[trigger] out@[k] < self.node_total(),
    {
        let ghost t = self.node_total();
        let ghost target = self.subtree_order(root as int);
        let mut out: Vec<NodeId> = Vec::new();
        let mut stack: Vec<NodeId> = Vec::new();
        stack.push(root);
        let ghost mut fuels: Seq<nat> = seq![(t + 1) as nat];
        proof {
            self.lemma_walk_nonempty(root as int, (t + 1) as nat);
            self.lemma_walk_in_range(root as int, (t + 1) as nat);
            assert(stack@.last() == root);
            assert(fuels.last() == t + 1);
            assert(stack@.drop_last() =~= Seq::<NodeId>::empty());
            assert(fuels.drop_last() =~= Seq::<nat>::empty());
            assert(self.walk_stack(Seq::<NodeId>::empty(), Seq::<nat>::empty()) == Seq::<NodeId>::empty());
            assert(self.walk_stack(stack@, fuels) =~= target);
            assert(out@ + self.walk_stack(stack@, fuels) =~= target);
        }
        while stack.len() > 0
            invariant
                self.wf(),
                t == self.node_total(),
                target == self.subtree_order(root as int),
                stack@.len() == fuels.len(),
                forall|i: int|
                    0 <= i < stack@.len() ==> #[trigger] stack@[i] < t && fuels[i] + self.rank_at(
                        stack@[i] as int,
                    ) >= t + 1,
                forall|k: int| 0 <= k < out@.len() ==> #[trigger] out@[k] < t,
                out@ + self.walk_stack(stack@, fuels) == target,
                root < t,
                out@.len() == 0 ==> stack@ == seq![root],
            decreases target.len() - out@.len(),
        {
            let ghost old_stack = stack@;
            let ghost old_fuels = fuels;
            let ghost old_out = out@;
            let x = stack.pop().unwrap();
            let ghost f = fuels.last();
            let ghost rest = stack@;
            proof {
                fuels = fuels.drop_last();
                assert(old_stack.last() == old_stack[old_stack.len() - 1]);
                assert(old_fuels.last() == old_fuels[old_fuels.len() - 1]);
                self.lemma_rank_bound(x as int);
                self.lemma_walk_nonempty(x as int, f);
            }
            let ghost rest_fuels = fuels;
            let ghost g = (f - 1) as nat;
            out.push(x);
            let kids = self.children(x);
            proof {
                assert(old_stack.drop_last() == rest);
                assert(self.walk_stack(old_stack, old_fuels) == self.walk(x as int, f)
                    + self.walk_stack(rest, rest_fuels));
                assert(self.walk(x as int, f) == seq![x] + self.walk_list(kids@, g));
                assert(out@ =~= old_out.push(x));
                assert(target =~= out@ + (self.walk_list(kids@, g) + self.walk_stack(rest, rest_fuels)));
                assert(kids@.take(0) =~= Seq::<NodeId>::empty());
                assert(self.walk_list(Seq::<NodeId>::empty(), g) == Seq::<NodeId>::empty());
                assert(self.walk_stack(stack@, fuels) =~= self.walk_list(kids@.take(0), g)
                    + self.walk_stack(rest, rest_fuels));
            }
            let mut j: usize = 0;
            while j < kids.len()
                invariant
                    self.wf(),
                    t == self.node_total(),
                    j <= kids@.len(),
                    kids@ == self.kids(x as int),
                    x < t,
                    g + 1 + self.rank_at(x as int) >= t + 1,
                    forall|k: int|
                        0 <= k < kids@.len() ==> #[trigger] kids@[k] < t && self.parent_at(
                            kids@[k] as int,
                        ) == x,
                    stack@.len() == fuels.len(),
                    forall|i: int|
                        0 <= i < stack@.len() ==> #[trigger] stack@[i] < t && fuels[i]
                            + self.rank_at(stack@[i] as int) >= t + 1,
                    self.walk_stack(stack@, fuels) == self.walk_list(kids@.take(j as int), g)
                        + self.walk_stack(rest, rest_fuels),
                decreases kids@.len() - j,
            {
                let ghost before = stack@;
                let ghost before_f = fuels;
                let c = kids[j];
                stack.push(c);
                proof {
                    fuels = fuels.push(g);
                    self.law_parents_rank_below_children(c as int);
                    self.dfs_push_step(before, before_f, stack@, fuels, kids@, j as int, g, rest, rest_fuels);
                    assert forall|i: int|
                        0 <= i < stack@.len() implies #[trigger] stack@[i] < t && fuels[i]
                            + self.rank_at(stack@[i] as int) >= t + 1 by {
                        if i < before.len() {
                            assert(stack@[i] == before[i]);
                            assert(fuels[i] == before_f[i]);
                        }
                    }
                }
                j = j + 1;
            }
            proof {
                assert(kids@.take(kids@.len() as int) =~= kids@);
                assert(out@ + self.walk_stack(stack@, fuels) =~= target);
            }
        }
        proof {
            assert(self.walk_stack(stack@, fuels) == Seq::<NodeId>::empty());
            assert(out@ =~= target);
            self.lemma_walk_nonempty(root as int, (t + 1) as nat);
        }
        out
    }

    proof fn dfs_push_step(
        &self,
        before: Seq<NodeId>,
        before_f: Seq<nat>,
        stack: Seq<NodeId>,
        fuels: Seq<nat>,
        kids: Seq<NodeId>,
        j: int,
        g: nat,
        rest: Seq<NodeId>,
        rest_fuels: Seq<nat>,
    )
        requires
            0 <= j < kids.len(),
            stack == before.push(kids[j]),
            fuels == before_f.push(g),
            self.walk_stack(before, before_f) == self.walk_list(kids.take(j), g) + self.walk_stack(
                rest,
                rest_fuels,
            ),
        ensures
            self.walk_stack(stack, fuels) == self.walk_list(kids.take(j + 1), g) + self.walk_stack(
                rest,
                rest_fuels,
            ),
    {
        assert(stack.drop_last() =~= before);
        assert(fuels.drop_last() =~= before_f);
        let tk = kids.take(j + 1);
        assert(tk.drop_last() =~= kids.take(j));
        assert(tk.last() == kids[j]);
        assert(self.walk_stack(stack, fuels) == self.walk(kids[j] as int, g) + self.walk_stack(
            before,
            before_f,
        ));
        assert(self.walk_list(tk, g) == self.walk(kids[j] as int, g) + self.walk_list(
            kids.take(j),
            g,
        ));
        assert(self.walk_stack(stack, fuels) =~= self.walk_list(tk, g) + self.walk_stack(
            rest,
            rest_fuels,
        ));
    }

    proof fn lemma_rank_bound(&self, v: int)
        requires
            self.wf(),
            0 <= v < self.node_total(),
        ensures
            self.rank_at(v) <= self.node_total(),
    {
        assert(self.rank@[v] <= self.node_total());
    }
}


/// Sum over a concatenation is the sum of the sums.
pub proof fn lemma_sum_vals_concat(a: Seq<NodeId>, b: Seq<NodeId>, vals: Seq<u64>)
    ensures
        sum_vals(a + b, vals) == sum_vals(a, vals) + sum_vals(b, vals),
    decreases b.len(),
{
    if b.len() == 0 {
        assert(a + b =~= a);
    } else {
        lemma_sum_vals_concat(a, b.drop_last(), vals);
        assert((a + b).drop_last() =~= a + b.drop_last());
        assert((a + b).last() == b.last());
    }
}

pub proof fn lemma_sum_vals_nonneg(s: Seq<NodeId>, vals: Seq<u64>)
    ensures
        sum_vals(s, vals) >= 0,
    decreases s.len(),
{
    if s.len() > 0 {
        lemma_sum_vals_nonneg(s.drop_last(), vals);
    }
}

/// A prefix sums to no more than the whole.
pub proof fn lemma_sum_vals_prefix(s: Seq<NodeId>, i: int, vals: Seq<u64>)
    requires
        0 <= i <= s.len(),
    ensures
        sum_vals(s.take(i), vals) <= sum_vals(s, vals),
{
    assert(s =~= s.take(i) + s.skip(i));
    lemma_sum_vals_concat(s.take(i), s.skip(i), vals);
    lemma_sum_vals_nonneg(s.skip(i), vals);
}

impl Tree {
    /// With enough fuel, a walk sums a rolled-up quantity: if `sub` is
    /// `own` plus the children's `sub` at every node, the own values over
    /// the walk of `v` total `sub[v]`.
    proof fn lemma_walk_sum(&self, v: int, fuel: nat, own: Seq<u64>, sub: Seq<u64>)
        requires
            self.wf(),
            0 <= v < self.node_total(),
            fuel + self.rank_at(v) >= self.node_total() + 1,
            own.len() == self.node_total(),
            sub.len() == self.node_total(),
            forall|u: int|
                0 <= u < self.node_total() ==> #[trigger] sub[u] == own[u] + sum_vals(
                    self.kids(u),
                    sub,
                ),
        ensures
            sum_vals(self.walk(v, fuel), own) == sub[v],
        decreases fuel, 0nat,
    {
        self.lemma_rank_bound(v);
        self.lemma_kids_facts(v);
        let kids = self.kids(v);
        assert forall|k: int| 0 <= k < kids.len() implies (#[trigger] kids[k]) < self.node_total()
            && (fuel - 1) + self.rank_at(kids[k] as int) >= self.node_total() + 1 by {
            self.law_parents_rank_below_children(kids[k] as int);
        }
        self.lemma_walk_list_sum(kids, (fuel - 1) as nat, own, sub);
        let rest = self.walk_list(kids, (fuel - 1) as nat);
        lemma_sum_vals_concat(seq![v as NodeId], rest, own);
        assert(seq![v as NodeId].drop_last() =~= Seq::<NodeId>::empty());
        assert((v as NodeId) as int == v);
        assert(seq![v as NodeId].last() == v as NodeId);
        assert(sum_vals(Seq::<NodeId>::empty(), own) == 0);
        assert(sum_vals(seq![v as NodeId], own) == sum_vals(seq![v as NodeId].drop_last(), own) + own[v]);
        assert(sum_vals(seq![v as NodeId], own) == own[v]);
        assert(sub[v] == own[v] + sum_vals(kids, sub));
    }

    proof fn lemma_walk_list_sum(&self, s: Seq<NodeId>, fuel: nat, own: Seq<u64>, sub: Seq<u64>)
        requires
            self.wf(),
            forall|k: int|
                0 <= k < s.len() ==> (#[trigger] s[k]) < self.node_total() && fuel + self.rank_at(
                    s[k] as int,
                ) >= self.node_total() + 1,
            own.len() == self.node_total(),
            sub.len() == self.node_total(),
            forall|u: int|
                0 <= u < self.node_total() ==> #[trigger] sub[u] == own[u] + sum_vals(
                    self.kids(u),
                    sub,
                ),
        ensures
            sum_vals(self.walk_list(s, fuel), own) == sum_vals(s, sub),
        decreases fuel, s.len() + 1,
    {
        if s.len() > 0 {
            let last = s.last();
            assert(s[s.len() - 1] == last);
            self.lemma_walk_sum(last as int, fuel, own, sub);
            assert forall|k: int| 0 <= k < s.drop_last().len() implies (#[trigger] s.drop_last()[k])
                < self.node_total() && fuel + self.rank_at(s.drop_last()[k] as int)
                >= self.node_total() + 1 by {
                assert(s.drop_last()[k] == s[k]);
            }
            self.lemma_walk_list_sum(s.drop_last(), fuel, own, sub);
            lemma_sum_vals_concat(
                self.walk(last as int, fuel),
                self.walk_list(s.drop_last(), fuel),
                own,
            );
        }
    }

    /// Every subtree total is the sum of the own sizes over the nodes of
    /// the subtree, in both size modes, and the file count is the number
    /// of files among them.
    pub proof fn law_subtree_is_sum_over_descendants(&self, v: int)
        requires
            self.wf(),
            0 <= v < self.node_total(),
        ensures
            self.subtree_logical_at(v) == sum_vals(self.subtree_order(v), self.own_logical()),
            self.subtree_alloc_at(v) == sum_vals(self.subtree_order(v), self.own_alloc()),
            self.files_at(v) == sum_vals(self.subtree_order(v), self.own_files()),
    {
        let f = (self.node_total() + 1) as nat;
        self.lemma_walk_sum(v, f, self.own_logical(), self.subtree_logical@);
        self.lemma_walk_sum(v, f, self.own_alloc(), self.subtree_alloc@);
        self.lemma_walk_sum(v, f, self.own_files(), self.file_count@);
    }
}

impl Tree {
    /// Children of `id`, largest subtree (on disk) first. Directories and
    /// files interleave by size.
    pub fn children_sorted_by_size(&self, id: NodeId) -> (out: Vec<NodeId>)
        requires
            self.wf(),
            id < self.node_total(),
        ensures
            out@.to_multiset() == self.kids(id as int).to_multiset(),
            out@.len() == self.kids(id as int).len(),
            sorted_desc(out@, self.subtree_alloc_seq()),
    {
        let kids = self.children(id);
        sort_ids_desc(kids, &self.subtree_alloc)
    }
}

/// Totals for one file type, as returned by [`Tree::extension_breakdown`].
#[derive(Clone, Copy, Debug, PartialEq, Eq, Structural)]
pub struct ExtStat {
    pub logical: u64,
    pub alloc: u64,
    pub files: u32,
}

impl Default for ExtStat {
    fn default() -> (r: ExtStat)
        ensures
            r.logical == 0 && r.alloc == 0 && r.files == 0,
    {
        ExtStat { logical: 0, alloc: 0, files: 0 }
    }
}

impl Tree {
    /// The file types among the nodes `s`, in order of first appearance.
    pub open spec fn type_keys(&self, s: Seq<NodeId>) -> Seq<Seq<char>>
        decreases s.len(),
    {
        if s.len() == 0 {
            Seq::empty()
        } else {
            let ks = self.type_keys(s.drop_last());
            let x = s.last() as int;
            let k = extension_key_of(self.name_at(x));
            if !self.is_dir_at(x) && !ks.contains(k) {
                ks.push(k)
            } else {
                ks
            }
        }
    }

    /// Whether `v` is a file of type `key`.
    pub open spec fn file_of_type(&self, v: int, key: Seq<char>) -> bool {
        !self.is_dir_at(v) && extension_key_of(self.name_at(v)) == key
    }

    /// Number of files of type `key` among the nodes `s`.
    pub open spec fn type_files(&self, s: Seq<NodeId>, key: Seq<char>) -> int
        decreases s.len(),
    {
        if s.len() == 0 {
            0
        } else {
            self.type_files(s.drop_last(), key) + if self.file_of_type(s.last() as int, key) {
                1int
            } else {
                0int
            }
        }
    }

    /// Logical bytes of the files of type `key` among the nodes `s`.
    pub open spec fn type_logical(&self, s: Seq<NodeId>, key: Seq<char>) -> int
        decreases s.len(),
    {
        if s.len() == 0 {
            0
        } else {
            self.type_logical(s.drop_last(), key) + if self.file_of_type(s.last() as int, key) {
                self.logical_at(s.last() as int) as int
            } else {
                0int
            }
        }
    }

    /// On-disk bytes of the files of type `key` among the nodes `s`.
    pub open spec fn type_alloc(&self, s: Seq<NodeId>, key: Seq<char>) -> int
        decreases s.len(),
    {
        if s.len() == 0 {
            0
        } else {
            self.type_alloc(s.drop_last(), key) + if self.file_of_type(s.last() as int, key) {
                self.alloc_at(s.last() as int) as int
            } else {
                0int
            }
        }
    }

    proof fn lemma_type_bounds(&self, s: Seq<NodeId>, key: Seq<char>)
        requires
            self.wf(),
            forall|k: int| 0 <= k < s.len() ==> (#[trigger] s[k]) < self.node_total(),
        ensures
            0 <= self.type_files(s, key) <= sum_vals(s, self.own_files()),
            0 <= self.type_logical(s, key) <= sum_vals(s, self.own_logical()),
            0 <= self.type_alloc(s, key) <= sum_vals(s, self.own_alloc()),
        decreases s.len(),
    {
        if s.len() > 0 {
            let x = s.last() as int;
            assert(s[s.len() - 1] == s.last());
            assert forall|k: int| 0 <= k < s.drop_last().len() implies (#[trigger] s.drop_last()[k])
                < self.node_total() by {
                assert(s.drop_last()[k] == s[k]);
            }
            self.lemma_type_bounds(s.drop_last(), key);
            if x == 0 {
                assert(self.flags@[0].0 & 1 == 1);
                let f = self.flags@[0].0;
                assert(f & 1 == 1 ==> f & 1 == 1) by (bit_vector);
                assert(self.is_dir_at(0));
            }
        }
    }

    /// Whether some node of `s` is a file of type `key`.
    proof fn lemma_type_files_witness(&self, s: Seq<NodeId>, key: Seq<char>)
        requires
            self.type_files(s, key) > 0,
        ensures
            exists|k: int| 0 <= k < s.len() && #[trigger] self.file_of_type(s[k] as int, key),
        decreases s.len(),
    {
        if s.len() > 0 {
            if self.file_of_type(s.last() as int, key) {
                assert(self.file_of_type(s[s.len() - 1] as int, key));
            } else {
                self.lemma_type_files_witness(s.drop_last(), key);
                let k = choose|k: int|
                    0 <= k < s.drop_last().len() && #[trigger] self.file_of_type(
                        s.drop_last()[k] as int,
                        key,
                    );
                assert(s[k] == s.drop_last()[k]);
            }
        }
    }
}


/// Position of `key` among `keys`, if it is there.
fn find_key(keys: &Vec<String>, key: &String) -> (r: Option<usize>)
    ensures
        match r {
            Some(j) => j < keys@.len() && keys@[j as int]@ == key@,
            None => forall|j: int| 0 <= j < keys@.len() ==> (#[trigger] keys@[j])@ != key@,
        },
{
    let mut j: usize = 0;
    while j < keys.len()
        invariant
            j <= keys@.len(),
            forall|m: int| 0 <= m < j ==> (#[trigger] keys@[m])@ != key@,
        decreases keys@.len() - j,
    {
        if keys[j] == *key {
            return Some(j);
        }
        j = j + 1;
    }
    None
}

impl Tree {
    /// Per-type totals over the files of the subtree of `root` (`root`
    /// itself included in the walk; a directory never counts). A file's
    /// type is its extension, lowercased, without the dot, or `(none)`.
    /// Each type appears once, with at least one file, in the order in
    /// which the walk first meets it.
    pub fn extension_breakdown(&self, root: NodeId) -> (out: Vec<(String, ExtStat)>)
        requires
            self.wf(),
            root < self.node_total(),
        ensures
            out@.len() == self.type_keys(self.subtree_order(root as int)).len(),
            forall|j: int|
                0 <= j < out@.len() ==> (#[trigger] out@[j]).0@ == self.type_keys(
                    self.subtree_order(root as int),
                )[j],
            forall|a: int, b: int| 0 <= a < b < out@.len() ==> out@[a].0@ != out@[b].0@,
            forall|j: int|
                0 <= j < out@.len() ==> {
                    let d = self.subtree_order(root as int);
                    &&& (#[trigger] out@[j]).1.files == self.type_files(d, out@[j].0@)
                    &&& out@[j].1.files > 0
                    &&& out@[j].1.logical == self.type_logical(d, out@[j].0@)
                    &&& out@[j].1.alloc == self.type_alloc(d, out@[j].0@)
                },
            forall|k: int|
                0 <= k < self.subtree_order(root as int).len() && !self.is_dir_at(
                    #[trigger] self.subtree_order(root as int)[k] as int,
                ) ==> exists|j: int|
                    0 <= j < out@.len() && out@[j].0@ == extension_key_of(
                        self.name_at(self.subtree_order(root as int)[k] as int),
                    ),
    {
        let ids = self.descendants(root);
        let ghost d = ids@;
        let ghost t = self.node_total();
        proof {
            self.law_subtree_is_sum_over_descendants(root as int);
        }
        let mut keys: Vec<String> = Vec::new();
        let mut stats: Vec<ExtStat> = Vec::new();
        let mut i: usize = 0;
        while i < ids.len()
            invariant
                self.wf(),
                t == self.node_total(),
                root < t,
                d == ids@,
                d == self.subtree_order(root as int),
                forall|k: int| 0 <= k < d.len() ==> #[trigger] d[k] < t,
                sum_vals(d, self.own_logical()) == self.subtree_logical_at(root as int),
                sum_vals(d, self.own_alloc()) == self.subtree_alloc_at(root as int),
                sum_vals(d, self.own_files()) == self.files_at(root as int),
                i <= d.len(),
                keys@.len() == stats@.len(),
                keys@.len() == self.type_keys(d.take(i as int)).len(),
                forall|j: int| 0 <= j < keys@.len() ==> (#[trigger] keys@[j])@ == self.type_keys(d.take(i as int))[j],
                forall|a: int, b: int| 0 <= a < b < keys@.len() ==> keys@[a]@ != keys@[b]@,
                forall|j: int|
                    0 <= j < keys@.len() ==> {
                        &&& (#[trigger] stats@[j]).files == self.type_files(d.take(i as int), keys@[j]@)
                        &&& stats@[j].files > 0
                        &&& stats@[j].logical == self.type_logical(d.take(i as int), keys@[j]@)
                        &&& stats@[j].alloc == self.type_alloc(d.take(i as int), keys@[j]@)
                    },
                forall|k: int|
                    0 <= k < i && !self.is_dir_at(#[trigger] d[k] as int) ==> exists|j: int|
                        0 <= j < keys@.len() && keys@[j]@ == extension_key_of(self.name_at(d[k] as int)),
            decreases d.len() - i,
        {
            let id = ids[i];
            let ghost pre = d.take(i as int);
            let ghost post = d.take(i + 1);
            proof {
                assert(post.drop_last() =~= pre);
                assert(post.last() == id);
                assert forall|k: int| 0 <= k < post.len() implies (#[trigger] post[k]) < t by {
                    assert(post[k] == d[k]);
                }
                self.lemma_sum_vals_prefix_bounds(d, i + 1);
                assert(self.file_count@[root as int] < t);
            }
            let ghost keys0 = keys@;
            let ghost mut wit: int = -1;
            if !self.is_dir(id) {
                let key = extension_key(self.name(id));
                let found = find_key(&keys, &key);
                match found {
                    Some(j) => {
                        let old = stats[j];
                        proof {
                            self.lemma_type_bounds(post, key@);
                            assert(self.type_files(post, key@) == old.files + 1);
                            wit = j as int;
                        }
                        let fresh = ExtStat {
                            logical: old.logical + self.size_logical(id),
                            alloc: old.alloc + self.size_alloc(id),
                            files: old.files + 1,
                        };
                        stats.set(j, fresh);
                    },
                    None => {
                        proof {
                            self.lemma_type_bounds(post, key@);
                            assert forall|m: int| 0 <= m < keys@.len() implies #[trigger] self.type_files(pre, keys@[m]@) > 0 by {
                                assert(stats@[m].files > 0);
                            }
                            assert(self.type_files(pre, key@) == 0) by {
                                if self.type_files(pre, key@) != 0 {
                                    self.lemma_type_files_nonneg(pre, key@);
                                    self.lemma_type_files_witness(pre, key@);
                                    let k = choose|k: int| 0 <= k < pre.len() && #[trigger] self.file_of_type(pre[k] as int, key@);
                                    assert(pre[k] == d[k]);
                                    assert(!self.is_dir_at(d[k] as int));
                                }
                            }
                            self.lemma_type_files_nonneg(pre, key@);
                            self.lemma_type_logical_zero(pre, key@);
                        }
                        keys.push(key);
                        stats.push(
                            ExtStat {
                                logical: self.size_logical(id),
                                alloc: self.size_alloc(id),
                                files: 1,
                            },
                        );
                        proof {
                            wit = keys@.len() - 1;
                        }
                    },
                }
            }
            proof {
                let ks = self.type_keys(pre);
                let kk = extension_key_of(self.name_at(id as int));
                if !self.is_dir_at(id as int) {
                    if ks.contains(kk) {
                        let m = choose|m: int| 0 <= m < ks.len() && ks[m] == kk;
                        assert(keys0[m]@ == kk);
                        assert(keys@ == keys0);
                    } else {
                        assert forall|m: int| 0 <= m < keys0.len() implies (#[trigger] keys0[m])@ != kk by {
                            assert(ks[m] == keys0[m]@);
                        }
                        assert(keys@.len() == keys0.len() + 1);
                    }
                }
                assert forall|j: int| 0 <= j < keys@.len() implies (#[trigger] keys@[j])@ == self.type_keys(post)[j] by {
                    if j < keys0.len() {
                        assert(keys@[j] == keys0[j]);
                    }
                }
                assert forall|k: int|
                    0 <= k < i + 1 && !self.is_dir_at(#[trigger] d[k] as int) implies exists|j: int|
                        0 <= j < keys@.len() && keys@[j]@ == extension_key_of(self.name_at(d[k] as int)) by {
                    if k < i {
                        let j0 = choose|j: int|
                            0 <= j < keys0.len() && keys0[j]@ == extension_key_of(self.name_at(d[k] as int));
                        assert(keys@[j0] == keys0[j0]);
                    } else {
                        assert(keys@[wit]@ == extension_key_of(self.name_at(d[k] as int)));
                    }
                }
            }
            i = i + 1;
        }
        proof {
            assert(d.take(d.len() as int) =~= d);
        }
        let mut out: Vec<(String, ExtStat)> = Vec::new();
        let mut j: usize = 0;
        while j < keys.len()
            invariant
                j <= keys@.len() == stats@.len(),
                out@.len() == j,
                forall|m: int| 0 <= m < j ==> (#[trigger] out@[m]).0@ == keys@[m]@ && out@[m].1 == stats@[m],
            decreases keys@.len() - j,
        {
            out.push((keys[j].clone(), stats[j]));
            j = j + 1;
        }
        proof {
            assert forall|k: int|
                0 <= k < d.len() && !self.is_dir_at(#[trigger] d[k] as int) implies exists|j: int|
                    0 <= j < out@.len() && out@[j].0@ == extension_key_of(self.name_at(d[k] as int)) by {
                let j0 = choose|j: int|
                    0 <= j < keys@.len() && keys@[j]@ == extension_key_of(self.name_at(d[k] as int));
                assert(out@[j0].0@ == keys@[j0]@);
            }
        }
        out
    }

    proof fn lemma_sum_vals_prefix_bounds(&self, d: Seq<NodeId>, i: int)
        requires
            0 <= i <= d.len(),
        ensures
            sum_vals(d.take(i), self.own_logical()) <= sum_vals(d, self.own_logical()),
            sum_vals(d.take(i), self.own_alloc()) <= sum_vals(d, self.own_alloc()),
            sum_vals(d.take(i), self.own_files()) <= sum_vals(d, self.own_files()),
    {
        lemma_sum_vals_prefix(d, i, self.own_logical());
        lemma_sum_vals_prefix(d, i, self.own_alloc());
        lemma_sum_vals_prefix(d, i, self.own_files());
    }

    pub proof fn lemma_type_files_nonneg(&self, s: Seq<NodeId>, key: Seq<char>)
        ensures
            self.type_files(s, key) >= 0,
            self.type_logical(s, key) >= 0,
            self.type_alloc(s, key) >= 0,
        decreases s.len(),
    {
        if s.len() > 0 {
            self.lemma_type_files_nonneg(s.drop_last(), key);
        }
    }

    /// No file of the type means no bytes of it either.
    proof fn lemma_type_logical_zero(&self, s: Seq<NodeId>, key: Seq<char>)
        requires
            self.type_files(s, key) == 0,
        ensures
            self.type_logical(s, key) == 0,
            self.type_alloc(s, key) == 0,
        decreases s.len(),
    {
        if s.len() > 0 {
            self.lemma_type_files_nonneg(s.drop_last(), key);
            self.lemma_type_logical_zero(s.drop_last(), key);
        }
    }
}

impl Tree {
    /// Whether `a` is `u` itself or lies on the path from `u` up to the
    /// root.
    pub closed spec fn is_ancestor(&self, a: int, u: int) -> bool
        decreases self.rank_at(u),
        when self.wf() && 0 <= u < self.node_total()
    {
        u == a || (u != 0 && self.is_ancestor(a, self.parent@[u] as int))
    }

    /// The names on the way from just below `a` down to `u`, top first;
    /// empty when `u` is `a` (or when the root is reached first).
    pub closed spec fn names_below_spec(&self, a: int, u: int) -> Seq<Seq<char>>
        decreases self.rank_at(u),
        when self.wf() && 0 <= u < self.node_total()
    {
        if u == a || u == 0 {
            Seq::empty()
        } else {
            self.names_below_spec(a, self.parent@[u] as int).push(self.name_at(u))
        }
    }

    /// The names leading from `a` down to `id`, top first, when both are
    /// nodes of the tree and `a` is `id` or one of its ancestors; `None`
    /// otherwise.
    pub fn names_below(&self, a: NodeId, id: NodeId) -> (r: Option<Vec<String>>)
        requires
            self.wf(),
        ensures
            r is Some <==> (a < self.node_total() && id < self.node_total() && self.is_ancestor(
                a as int,
                id as int,
            )),
            r matches Some(v) ==> v@.map_values(|s: String| s@) == self.names_below_spec(
                a as int,
                id as int,
            ),
    {
        if a as usize >= self.node_count() || id as usize >= self.node_count() {
            return None;
        }
        let mut up: Vec<String> = Vec::new();
        let ghost mut acc: Seq<Seq<char>> = Seq::empty();
        let mut cur = id;
        while cur != a
            invariant
                self.wf(),
                a < self.node_total(),
                cur < self.node_total(),
                self.is_ancestor(a as int, id as int) == self.is_ancestor(a as int, cur as int),
                self.is_ancestor(a as int, cur as int) ==> self.names_below_spec(a as int, id as int)
                    == self.names_below_spec(a as int, cur as int) + acc,
                acc.len() == up@.len(),
                forall|k: int| 0 <= k < acc.len() ==> #[trigger] acc[k] == up@[up@.len() - 1 - k]@,
            decreases self.rank_at(cur as int),
        {
            let p = match self.parent_of(cur) {
                Some(p) => p,
                None => {
                    return None;
                },
            };
            let ghost before = acc;
            up.push(self.name(cur).to_owned());
            proof {
                self.law_parents_rank_below_children(cur as int);
                acc = seq![self.name_at(cur as int)] + acc;
                assert forall|k: int| 0 <= k < acc.len() implies #[trigger] acc[k] == up@[up@.len() - 1
                    - k]@ by {
                    if k > 0 {
                        assert(acc[k] == before[k - 1]);
                    }
                }
                if self.is_ancestor(a as int, p as int) {
                    assert(self.names_below_spec(a as int, cur as int) == self.names_below_spec(
                        a as int,
                        p as int,
                    ).push(self.name_at(cur as int)));
                    assert(self.names_below_spec(a as int, p as int).push(self.name_at(cur as int))
                        + before =~= self.names_below_spec(a as int, p as int) + acc);
                }
            }
            cur = p;
        }
        proof {
            assert(Seq::<Seq<char>>::empty() + acc =~= acc);
        }
        let mut out: Vec<String> = Vec::new();
        let m = up.len();
        let mut j: usize = 0;
        while j < m
            invariant
                m == up@.len() == acc.len(),
                j <= m,
                out@.len() == j,
                forall|k: int| 0 <= k < acc.len() ==> #[trigger] acc[k] == up@[up@.len() - 1 - k]@,
                out@.map_values(|s: String| s@) =~= acc.take(j as int),
            decreases m - j,
        {
            let s = up[m - 1 - j].clone();
            let ghost before = out@;
            proof {
                assert(s@ == acc[j as int]);
            }
            out.push(s);
            proof {
                let mv = out@.map_values(|s: String| s@);
                let bv = before.map_values(|s: String| s@);
                assert forall|k: int| 0 <= k < j + 1 implies #[trigger] mv[k] == acc.take(j + 1)[k] by {
                    if k < j {
                        assert(out@[k] == before[k]);
                        assert(bv[k] == acc.take(j as int)[k]);
                    }
                }
                assert(out@.map_values(|s: String| s@) =~= acc.take(j + 1));
            }
            j = j + 1;
        }
        proof {
            assert(acc.take(m as int) =~= acc);
        }
        Some(out)
    }

    proof fn lemma_ancestor_rank(&self, a: int, u: int)
        requires
            self.wf(),
            0 <= u < self.node_total(),
            self.is_ancestor(a, u),
        ensures
            self.rank_at(a) <= self.rank_at(u),
            0 <= a < self.node_total(),
        decreases self.rank_at(u),
    {
        if u != a {
            let p = self.parent@[u] as int;
            self.law_parents_rank_below_children(u);
            self.lemma_ancestor_rank(a, p);
        }
    }

    /// Every node lies at or below itself.
    pub proof fn lemma_ancestor_self(&self, v: int)
        requires
            self.wf(),
            0 <= v < self.node_total(),
        ensures
            self.is_ancestor(v, v),
    {
    }

    /// A child of a node at or below `a` is at or below `a` too.
    pub proof fn lemma_kid_below(&self, a: int, v: int, c: NodeId)
        requires
            self.wf(),
            0 <= v < self.node_total(),
            self.kids(v).contains(c),
            self.is_ancestor(a, v),
        ensures
            1 <= c < self.node_total(),
            self.parent_at(c as int) == v,
            self.is_ancestor(a, c as int),
    {
        self.lemma_kids_facts(v);
        let k = choose|k: int| 0 <= k < self.kids(v).len() && self.kids(v)[k] == c;
        assert(self.kids(v)[k] == c);
    }

    /// An ancestor of `a` is an ancestor of everything below `a`.
    proof fn lemma_ancestor_up(&self, a: int, u: int)
        requires
            self.wf(),
            1 <= a < self.node_total(),
            0 <= u < self.node_total(),
            self.is_ancestor(a, u),
        ensures
            self.is_ancestor(self.parent_at(a), u),
        decreases self.rank_at(u),
    {
        self.law_parents_rank_below_children(a);
        if u == a {
            assert(self.is_ancestor(self.parent_at(a), self.parent_at(a)));
        } else {
            let p = self.parent@[u] as int;
            self.law_parents_rank_below_children(u);
            self.lemma_ancestor_up(a, p);
        }
    }

    /// Two different children of one parent have no common descendant.
    proof fn lemma_branches_disjoint(&self, a: int, b: int, u: int)
        requires
            self.wf(),
            1 <= a < self.node_total(),
            1 <= b < self.node_total(),
            a != b,
            self.parent_at(a) == self.parent_at(b),
            0 <= u < self.node_total(),
            self.is_ancestor(a, u),
        ensures
            !self.is_ancestor(b, u),
        decreases self.rank_at(u),
    {
        self.law_parents_rank_below_children(a);
        self.law_parents_rank_below_children(b);
        if self.is_ancestor(b, u) {
            if u == a {
                self.lemma_ancestor_rank(b, self.parent_at(a));
            } else if u == b {
                self.lemma_ancestor_rank(a, self.parent_at(b));
            } else {
                self.law_parents_rank_below_children(u);
                self.lemma_branches_disjoint(a, b, self.parent@[u] as int);
            }
        }
    }

    /// Everything a walk of `v` lists lies below `v`, once.
    proof fn lemma_walk_distinct(&self, v: int, fuel: nat)
        requires
            self.wf(),
            0 <= v < self.node_total(),
        ensures
            self.walk(v, fuel).no_duplicates(),
            forall|k: int|
                0 <= k < self.walk(v, fuel).len() ==> self.is_ancestor(
                    v,
                    #[trigger] self.walk(v, fuel)[k] as int,
                ),
        decreases fuel, 0nat,
    {
        self.lemma_walk_in_range(v, fuel);
        assert((v as NodeId) as int == v);
        if fuel > 0 {
            let kids = self.kids(v);
            self.lemma_kids_facts(v);
            assert forall|i: int, j: int| 0 <= i < j < kids.len() implies kids[i] != kids[j] by {}
            self.lemma_walk_list_distinct(v, kids, (fuel - 1) as nat);
            let l = self.walk_list(kids, (fuel - 1) as nat);
            let w = self.walk(v, fuel);
            assert(w == seq![v as NodeId] + l);
            assert forall|k: int| 0 <= k < l.len() implies l[k] != v as NodeId by {
                let c = choose|i: int| 0 <= i < kids.len() && self.is_ancestor(kids[i] as int, l[k] as int);
                self.law_parents_rank_below_children(kids[c] as int);
                self.lemma_walk_list_in_range(kids, (fuel - 1) as nat);
                self.lemma_ancestor_rank(kids[c] as int, l[k] as int);
            }
            vstd::seq_lib::lemma_no_dup_in_concat(seq![v as NodeId], l);
            assert forall|k: int| 0 <= k < w.len() implies self.is_ancestor(v, #[trigger] w[k] as int) by {
                if k > 0 {
                    assert(w[k] == l[k - 1]);
                    let c = choose|i: int| 0 <= i < kids.len() && self.is_ancestor(kids[i] as int, l[k - 1] as int);
                    self.lemma_walk_list_in_range(kids, (fuel - 1) as nat);
                    self.lemma_ancestor_up(kids[c] as int, l[k - 1] as int);
                }
            }
        }
    }

    proof fn lemma_walk_list_distinct(&self, v: int, s: Seq<NodeId>, fuel: nat)
        requires
            self.wf(),
            0 <= v < self.node_total(),
            forall|k: int|
                0 <= k < s.len() ==> 1 <= #[trigger] s[k] < self.node_total() && self.parent_at(
                    s[k] as int,
                ) == v,
            forall|i: int, j: int| 0 <= i < j < s.len() ==> s[i] != s[j],
        ensures
            self.walk_list(s, fuel).no_duplicates(),
            forall|k: int|
                0 <= k < self.walk_list(s, fuel).len() ==> exists|i: int|
                    0 <= i < s.len() && self.is_ancestor(
                        s[i] as int,
                        #[trigger] self.walk_list(s, fuel)[k] as int,
                    ),
        decreases fuel, s.len() + 1,
    {
        if s.len() > 0 {
            let last = s.last();
            let rest = s.drop_last();
            assert(s[s.len() - 1] == last);
            assert forall|k: int| 0 <= k < rest.len() implies 1 <= #[trigger] rest[k]
                < self.node_total() && self.parent_at(rest[k] as int) == v by {
                assert(rest[k] == s[k]);
            }
            self.lemma_walk_distinct(last as int, fuel);
            self.lemma_walk_list_distinct(v, rest, fuel);
            self.lemma_walk_in_range(last as int, fuel);
            assert forall|k: int| 0 <= k < rest.len() implies (#[trigger] s[k]) < self.node_total() by {}
            self.lemma_walk_list_in_range(rest, fuel);
            let a = self.walk(last as int, fuel);
            let b = self.walk_list(rest, fuel);
            assert forall|i: int, j: int| 0 <= i < a.len() && 0 <= j < b.len() implies a[i] != b[j] by {
                let c = choose|m: int| 0 <= m < rest.len() && self.is_ancestor(rest[m] as int, b[j] as int);
                assert(rest[c] == s[c]);
                if a[i] == b[j] {
                    self.lemma_branches_disjoint(rest[c] as int, last as int, b[j] as int);
                }
            }
            vstd::seq_lib::lemma_no_dup_in_concat(a, b);
            let w = a + b;
            assert forall|k: int| 0 <= k < w.len() implies exists|i: int|
                0 <= i < s.len() && self.is_ancestor(s[i] as int, #[trigger] w[k] as int) by {
                if k < a.len() {
                    assert(self.is_ancestor(s[s.len() - 1] as int, w[k] as int));
                } else {
                    assert(w[k] == b[k - a.len()]);
                    let c = choose|m: int| 0 <= m < rest.len() && self.is_ancestor(rest[m] as int, b[k - a.len()] as int);
                    assert(rest[c] == s[c]);
                }
            }
        }
    }

    /// The child of `v` on the way down to `u`, when `u` lies strictly
    /// below `v`.
    proof fn lemma_child_toward(&self, v: int, u: int) -> (c: int)
        requires
            self.wf(),
            0 <= u < self.node_total(),
            self.is_ancestor(v, u),
            u != v,
        ensures
            1 <= c < self.node_total(),
            self.parent_at(c) == v,
            self.is_ancestor(c, u),
        decreases self.rank_at(u),
    {
        self.law_parents_rank_below_children(u);
        let p = self.parent_at(u);
        if p == v {
            u
        } else {
            let c = self.lemma_child_toward(v, p);
            c
        }
    }

    /// A walk over a list of nodes lists whatever the walk of any one of
    /// them lists.
    proof fn lemma_walk_list_has(&self, s: Seq<NodeId>, fuel: nat, c: NodeId, x: NodeId)
        requires
            s.contains(c),
            self.walk(c as int, fuel).contains(x),
        ensures
            self.walk_list(s, fuel).contains(x),
        decreases s.len(),
    {
        let w = self.walk(s.last() as int, fuel);
        let rest = self.walk_list(s.drop_last(), fuel);
        assert(self.walk_list(s, fuel) == w + rest);
        if s.last() == c {
            let k = choose|k: int| 0 <= k < w.len() && w[k] == x;
            assert((w + rest)[k] == x);
        } else {
            let j = choose|j: int| 0 <= j < s.len() && s[j] == c;
            assert(s.drop_last()[j] == c);
            self.lemma_walk_list_has(s.drop_last(), fuel, c, x);
            let k = choose|k: int| 0 <= k < rest.len() && rest[k] == x;
            assert((w + rest)[w.len() + k] == x);
        }
    }

    /// With fuel enough for the depth below `v`, a walk of `v` reaches
    /// every node below it.
    proof fn lemma_walk_complete(&self, v: int, fuel: nat, u: int)
        requires
            self.wf(),
            0 <= v < self.node_total(),
            0 <= u < self.node_total(),
            fuel + self.rank_at(v) >= self.node_total() + 1,
            self.is_ancestor(v, u),
        ensures
            self.walk(v, fuel).contains(u as NodeId),
        decreases fuel,
    {
        self.lemma_walk_nonempty(v, fuel);
        if u == v {
            assert(self.walk(v, fuel)[0] == u as NodeId);
        } else {
            let c = self.lemma_child_toward(v, u);
            self.law_parents_rank_below_children(c);
            assert(fuel >= 2);
            self.law_children_are_the_nodes_naming_the_parent(v, c);
            self.lemma_walk_complete(c, (fuel - 1) as nat, u);
            assert((c as NodeId) as int == c);
            self.lemma_walk_list_has(self.kids(v), (fuel - 1) as nat, c as NodeId, u as NodeId);
            let l = self.walk_list(self.kids(v), (fuel - 1) as nat);
            let k = choose|k: int| 0 <= k < l.len() && l[k] == u as NodeId;
            assert(self.walk(v, fuel) == seq![v as NodeId] + l);
            assert(self.walk(v, fuel)[k + 1] == u as NodeId);
        }
    }

    /// The depth-first order of a subtree lists exactly the nodes at or
    /// below its top: a node is listed if and only if the top is the node
    /// itself or one of its ancestors.
    pub proof fn law_subtree_order_is_exactly_the_subtree(&self, v: int, u: int)
        requires
            self.wf(),
            0 <= v < self.node_total(),
        ensures
            (0 <= u < self.node_total() && self.subtree_order(v).contains(u as NodeId)) <==> (0 <= u
                < self.node_total() && self.is_ancestor(v, u)),
    {
        if 0 <= u < self.node_total() {
            let w = self.subtree_order(v);
            if w.contains(u as NodeId) {
                self.lemma_walk_distinct(v, (self.node_total() + 1) as nat);
                let k = choose|k: int| 0 <= k < w.len() && w[k] == u as NodeId;
                assert(self.is_ancestor(v, w[k] as int));
            }
            if self.is_ancestor(v, u) {
                self.lemma_walk_complete(v, (self.node_total() + 1) as nat, u);
            }
        }
    }

    /// Every node of a finished tree lies below the synthetic root:
    /// following parents from any node ends at [`ROOT`].
    pub proof fn law_every_node_lies_under_the_root(&self, v: int)
        requires
            self.wf(),
            0 <= v < self.node_total(),
        ensures
            self.is_ancestor(ROOT as int, v),
        decreases self.rank_at(v),
    {
        if v != 0 {
            self.law_parents_rank_below_children(v);
            self.law_every_node_lies_under_the_root(self.parent_at(v));
        }
    }

    /// The depth-first order of a subtree lists every one of its nodes at
    /// most once, so it is never longer than the tree.
    pub proof fn law_subtree_order_is_distinct(&self, v: int)
        requires
            self.wf(),
            0 <= v < self.node_total(),
        ensures
            self.subtree_order(v).no_duplicates(),
            self.subtree_order(v).len() <= self.node_total(),
            forall|k: int|
                0 <= k < self.subtree_order(v).len() ==> #[trigger] self.subtree_order(v)[k]
                    < self.node_total(),
    {
        let f = (self.node_total() + 1) as nat;
        self.lemma_walk_distinct(v, f);
        self.lemma_walk_in_range(v, f);
        let d = self.subtree_order(v);
        let di = d.map_values(|x: NodeId| x as int);
        assert forall|i: int, j: int| 0 <= i < j < di.len() implies di[i] != di[j] by {
            assert(d[i] != d[j]);
        }
        assert(di.no_duplicates());
        di.unique_seq_to_set();
        let t = self.node_total() as int;
        vstd::set_lib::lemma_int_range(0, t);
        assert(di.to_set().subset_of(vstd::set_lib::set_int_range(0, t))) by {
            assert forall|x: int| di.to_set().contains(x) implies vstd::set_lib::set_int_range(0, t).contains(x) by {
                let k = choose|k: int| 0 <= k < di.len() && di[k] == x;
                assert(d[k] < t);
            }
        }
        vstd::set_lib::lemma_len_subset(di.to_set(), vstd::set_lib::set_int_range(0, t));
    }
}

/// Removing one element takes its value off the sum.
pub proof fn lemma_sum_vals_remove(b: Seq<NodeId>, i: int, vals: Seq<u64>)
    requires
        0 <= i < b.len(),
    ensures
        sum_vals(b, vals) == sum_vals(b.remove(i), vals) + vals[b[i] as int],
{
    assert(b =~= b.take(i) + seq![b[i]] + b.skip(i + 1));
    assert(b.remove(i) =~= b.take(i) + b.skip(i + 1));
    lemma_sum_vals_concat(b.take(i) + seq![b[i]], b.skip(i + 1), vals);
    lemma_sum_vals_concat(b.take(i), seq![b[i]], vals);
    lemma_sum_vals_concat(b.take(i), b.skip(i + 1), vals);
    assert(seq![b[i]].drop_last() =~= Seq::<NodeId>::empty());
    assert(sum_vals(Seq::<NodeId>::empty(), vals) == 0);
}

/// The values of distinct elements that all occur in `b` sum to at most
/// the sum over `b`.
pub proof fn lemma_sum_vals_subset(a: Seq<NodeId>, b: Seq<NodeId>, vals: Seq<u64>)
    requires
        a.no_duplicates(),
        forall|k: int| 0 <= k < a.len() ==> b.contains(#[trigger] a[k]),
    ensures
        sum_vals(a, vals) <= sum_vals(b, vals),
    decreases a.len(),
{
    if a.len() == 0 {
        lemma_sum_vals_nonneg(b, vals);
    } else {
        let y = a.last();
        assert(a[a.len() - 1] == y);
        assert(b.contains(y));
        let i = choose|i: int| 0 <= i < b.len() && b[i] == y;
        let b2 = b.remove(i);
        let a2 = a.drop_last();
        assert forall|k: int| 0 <= k < a2.len() implies b2.contains(#[trigger] a2[k]) by {
            assert(a2[k] == a[k]);
            assert(b.contains(a[k]));
            let j = choose|j: int| 0 <= j < b.len() && b[j] == a[k];
            assert(a[k] != y);
            assert(j != i);
            if j < i {
                assert(b2[j] == b[j]);
            } else {
                assert(b2[j - 1] == b[j]);
            }
        }
        lemma_sum_vals_subset(a2, b2, vals);
        lemma_sum_vals_remove(b, i, vals);
    }
}

impl Tree {
    /// Sum of `amt` over the files among `s` (directories count nothing).
    pub open spec fn files_total(&self, s: Seq<NodeId>, amt: spec_fn(int) -> int) -> int
        decreases s.len(),
    {
        if s.len() == 0 {
            0
        } else {
            self.files_total(s.drop_last(), amt) + if !self.is_dir_at(s.last() as int) {
                amt(s.last() as int)
            } else {
                0
            }
        }
    }

    /// Sum of `amt` over the files of type `k` among `s`.
    pub open spec fn type_total(&self, s: Seq<NodeId>, k: Seq<char>, amt: spec_fn(int) -> int) -> int
        decreases s.len(),
    {
        if s.len() == 0 {
            0
        } else {
            self.type_total(s.drop_last(), k, amt) + if self.file_of_type(s.last() as int, k) {
                amt(s.last() as int)
            } else {
                0
            }
        }
    }

    /// Sum over the types `ks` of [`Tree::type_total`].
    pub open spec fn types_total(
        &self,
        s: Seq<NodeId>,
        ks: Seq<Seq<char>>,
        amt: spec_fn(int) -> int,
    ) -> int
        decreases ks.len(),
    {
        if ks.len() == 0 {
            0
        } else {
            self.types_total(s, ks.drop_last(), amt) + self.type_total(s, ks.last(), amt)
        }
    }

    /// The per-type sums are [`Tree::type_total`] of the matching amount.
    pub proof fn lemma_type_sums_are_totals(&self, s: Seq<NodeId>, k: Seq<char>)
        ensures
            self.type_files(s, k) == self.type_total(s, k, |x: int| 1int),
            self.type_logical(s, k) == self.type_total(s, k, |x: int| self.logical_at(x) as int),
            self.type_alloc(s, k) == self.type_total(s, k, |x: int| self.alloc_at(x) as int),
        decreases s.len(),
    {
        if s.len() > 0 {
            self.lemma_type_sums_are_totals(s.drop_last(), k);
        }
    }

    /// One node's share summed over the types `ks`.
    spec fn node_share(&self, x: int, ks: Seq<Seq<char>>, amt: spec_fn(int) -> int) -> int
        decreases ks.len(),
    {
        if ks.len() == 0 {
            0
        } else {
            self.node_share(x, ks.drop_last(), amt) + if self.file_of_type(x, ks.last()) {
                amt(x)
            } else {
                0
            }
        }
    }

    proof fn lemma_types_total_step(&self, s: Seq<NodeId>, ks: Seq<Seq<char>>, amt: spec_fn(int) -> int)
        requires
            s.len() > 0,
        ensures
            self.types_total(s, ks, amt) == self.types_total(s.drop_last(), ks, amt)
                + self.node_share(s.last() as int, ks, amt),
        decreases ks.len(),
    {
        if ks.len() > 0 {
            self.lemma_types_total_step(s, ks.drop_last(), amt);
        }
    }

    proof fn lemma_node_share_none(&self, x: int, ks: Seq<Seq<char>>, amt: spec_fn(int) -> int)
        requires
            forall|j: int| 0 <= j < ks.len() ==> !self.file_of_type(x, #[trigger] ks[j]),
        ensures
            self.node_share(x, ks, amt) == 0,
        decreases ks.len(),
    {
        if ks.len() > 0 {
            assert forall|j: int| 0 <= j < ks.drop_last().len() implies !self.file_of_type(
                x,
                #[trigger] ks.drop_last()[j],
            ) by {
                assert(ks.drop_last()[j] == ks[j]);
            }
            self.lemma_node_share_none(x, ks.drop_last(), amt);
            assert(ks.last() == ks[ks.len() - 1]);
        }
    }

    proof fn lemma_node_share_le(&self, x: int, ks: Seq<Seq<char>>, amt: spec_fn(int) -> int)
        requires
            ks.no_duplicates(),
            amt(x) >= 0,
        ensures
            0 <= self.node_share(x, ks, amt) <= if !self.is_dir_at(x) {
                amt(x)
            } else {
                0
            },
        decreases ks.len(),
    {
        if ks.len() > 0 {
            let last = ks.last();
            assert(ks[ks.len() - 1] == last);
            let rest = ks.drop_last();
            assert forall|i: int, j: int| 0 <= i < rest.len() && 0 <= j < rest.len() && i != j implies rest[i] != rest[j] by {
                assert(rest[i] == ks[i]);
                assert(rest[j] == ks[j]);
            }
            if self.file_of_type(x, last) {
                assert forall|j: int| 0 <= j < rest.len() implies !self.file_of_type(x, #[trigger] rest[j]) by {
                    assert(rest[j] == ks[j]);
                }
                self.lemma_node_share_none(x, rest, amt);
            } else {
                self.lemma_node_share_le(x, rest, amt);
            }
        }
    }

    /// Over distinct types, the per-type totals add up to no more than the
    /// total over all files.
    pub proof fn lemma_types_total_bound(&self, s: Seq<NodeId>, ks: Seq<Seq<char>>, amt: spec_fn(int) -> int)
        requires
            ks.no_duplicates(),
            forall|x: int| #[trigger] amt(x) >= 0,
        ensures
            0 <= self.types_total(s, ks, amt) <= self.files_total(s, amt),
        decreases s.len(),
    {
        if s.len() == 0 {
            self.lemma_types_total_empty(s, ks, amt);
        } else {
            self.lemma_types_total_bound(s.drop_last(), ks, amt);
            self.lemma_types_total_step(s, ks, amt);
            self.lemma_node_share_le(s.last() as int, ks, amt);
        }
    }

    proof fn lemma_types_total_empty(&self, s: Seq<NodeId>, ks: Seq<Seq<char>>, amt: spec_fn(int) -> int)
        requires
            s.len() == 0,
        ensures
            self.types_total(s, ks, amt) == 0,
        decreases ks.len(),
    {
        if ks.len() > 0 {
            self.lemma_types_total_empty(s, ks.drop_last(), amt);
        }
    }

    /// The file totals over a walk are bounded by the rolled-up totals.
    pub proof fn lemma_files_total_bounds(&self, s: Seq<NodeId>)
        requires
            self.wf(),
            forall|k: int| 0 <= k < s.len() ==> #[trigger] s[k] < self.node_total(),
        ensures
            self.files_total(s, |x: int| 1int) == sum_vals(s, self.own_files()),
            self.files_total(s, |x: int| self.logical_at(x) as int) <= sum_vals(s, self.own_logical()),
            self.files_total(s, |x: int| self.alloc_at(x) as int) <= sum_vals(s, self.own_alloc()),
        decreases s.len(),
    {
        if s.len() > 0 {
            assert(s[s.len() - 1] == s.last());
            assert forall|k: int| 0 <= k < s.drop_last().len() implies #[trigger] s.drop_last()[k]
                < self.node_total() by {
                assert(s.drop_last()[k] == s[k]);
            }
            self.lemma_files_total_bounds(s.drop_last());
            if s.last() == 0 {
                let f = self.flags@[0].0;
                assert(f & 1 == 1 ==> f & 1 == 1) by (bit_vector);
                assert(self.is_dir_at(0));
            }
        }
    }
}

impl Tree {
    /// Ranks never exceed the number of nodes.
    pub proof fn law_rank_bounded(&self, v: int)
        requires
            self.wf(),
            0 <= v < self.node_total(),
        ensures
            self.rank_at(v) <= self.node_total(),
            self.node_total() <= u32::MAX + 1,
    {
        self.lemma_rank_bound(v);
    }

    /// A file count is less than the number of nodes.
    pub proof fn lemma_files_bounded(&self, v: int)
        requires
            self.wf(),
            0 <= v < self.node_total(),
        ensures
            self.files_at(v) < self.node_total(),
    {
        assert(self.file_count@[v] < self.node_total());
    }

    /// The per-node sequences agree with the per-node accessors.
    pub proof fn lemma_seqs_agree(&self, v: int)
        requires
            self.wf(),
            0 <= v < self.node_total(),
        ensures
            self.subtree_logical_seq()[v] == self.subtree_logical_at(v),
            self.subtree_alloc_seq()[v] == self.subtree_alloc_at(v),
            self.files_seq()[v] == self.files_at(v),
            self.own_logical()[v] == self.logical_at(v),
            self.own_alloc()[v] == self.alloc_at(v),
            self.subtree_logical_seq().len() == self.node_total(),
            self.subtree_alloc_seq().len() == self.node_total(),
    {
    }

    /// A subtree's order starts with its root.
    pub proof fn lemma_subtree_order_starts_at(&self, v: int)
        requires
            self.wf(),
            0 <= v < self.node_total(),
        ensures
            self.subtree_order(v).len() >= 1,
            self.subtree_order(v)[0] == v,
    {
        self.lemma_walk_nonempty(v, (self.node_total() + 1) as nat);
        assert((v as NodeId) as int == v);
    }
}

impl Tree {
    /// The file types of a walk are distinct.
    pub proof fn lemma_type_keys_distinct(&self, s: Seq<NodeId>)
        ensures
            self.type_keys(s).no_duplicates(),
        decreases s.len(),
    {
        if s.len() > 0 {
            self.lemma_type_keys_distinct(s.drop_last());
        }
    }
}
} // verus!
