//! Turning the Master File Table into a scan tree: where the table lies
//! (from `$MFT`'s own record), folding parsed records into an index by
//! record number, and rebuilding the directory hierarchy from their
//! parent pointers.
//!
//! Reading the volume and spreading record parsing over threads is the
//! application's part; every decision about what a record contributes
//! is made here.

use vstd::prelude::*;
use vstd::pervasive::VecAdditionalExecFns;

use super::record::{
    apply_fixups, fixups_of, parse, record_of, unnamed_data_runlist, unnamed_runlist_of, FileFacts,
    FileRecord,
};
use super::runlist::{self, runlist_of, Extent};
use super::NtfsError;
use crate::csr::{
    child_starts, count_children, count_kids, csr_layout, fill_order, kids_before, kids_of,
    lemma_kids_before_mono, lemma_kids_before_total, lemma_kids_membership, parents_in_range,
};
use crate::flags::NodeFlags;
use crate::csr::{lemma_total_vals_prefix, sum_vals, total_vals};
use crate::tree::{
    kept_name, lemma_sum_vals_subset, NodeId, RawNode, Tree, TreeBuilder,
    ROOT,
};

verus! {

/// NTFS fixes the root directory at record 5.
pub const ROOT_RECORD: u32 = 5;

/// Read the table in large sequential bites.
pub const CHUNK_TARGET: usize = 8 * 1024 * 1024;

// ---------------------------------------------------------------------
// Where the table lies
// ---------------------------------------------------------------------

/// Why the table's own extents could not be found.
#[derive(Debug, Clone, PartialEq, Eq)]
pub enum MftError {
    /// `$MFT`'s record itself could not be decoded.
    Ntfs(NtfsError),
    /// `$MFT`'s record has no non-resident unnamed `$DATA` attribute.
    NoDataRuns,
    /// Its runlist decodes to no backed extent.
    EmptyRunlist,
}

/// What reading record 0 (`$MFT`) tells about where the table lies, and
/// the record's bytes once its fixups are applied.
pub open spec fn mft_extents_of(b: Seq<u8>, bps: u32) -> (Result<Seq<Extent>, MftError>, Seq<u8>) {
    let (fixed, after) = fixups_of(b, bps);
    (
        match fixed {
            Err(e) => Err(MftError::Ntfs(e)),
            Ok(_) => match unnamed_runlist_of(after) {
                Err(e) => Err(MftError::Ntfs(e)),
                Ok(None) => Err(MftError::NoDataRuns),
                Ok(Some(runs)) => match runlist_of(runs) {
                    Err(e) => Err(MftError::Ntfs(e)),
                    Ok(x) => if x.len() == 0 {
                        Err(MftError::EmptyRunlist)
                    } else {
                        Ok(x)
                    },
                },
            },
        },
        after,
    )
}

/// Decodes `$MFT`'s own record (record 0, as read from the volume) into
/// the extents the whole table occupies.
pub fn mft_extents(first: &mut [u8], bytes_per_sector: u32) -> (r: Result<Vec<Extent>, MftError>)
    ensures
        final(first)@ == mft_extents_of(old(first)@, bytes_per_sector).1,
        match (r, mft_extents_of(old(first)@, bytes_per_sector).0) {
            (Ok(v), Ok(x)) => v@ == x,
            (Err(e), Err(f)) => e == f,
            _ => false,
        },
{
    match apply_fixups(first, bytes_per_sector) {
        Err(e) => return Err(MftError::Ntfs(e)),
        Ok(()) => {},
    }
    let runs = match unnamed_data_runlist(first) {
        Err(e) => return Err(MftError::Ntfs(e)),
        Ok(None) => return Err(MftError::NoDataRuns),
        Ok(Some(runs)) => runs,
    };
    let extents = match runlist::parse(runs) {
        Err(e) => return Err(MftError::Ntfs(e)),
        Ok(v) => v,
    };
    if extents.len() == 0 {
        return Err(MftError::EmptyRunlist);
    }
    Ok(extents)
}

/// Repairs and parses one record as read from the table; `None` when it
/// is torn or not a FILE record, which the scan skips.
pub fn decode_record(rec: &mut [u8], bytes_per_sector: u32) -> (r: Option<FileRecord>)
    ensures
        final(rec)@ == fixups_of(old(rec)@, bytes_per_sector).1,
        match fixups_of(old(rec)@, bytes_per_sector).0 {
            Err(_) => r is None,
            Ok(_) => match record_of(fixups_of(old(rec)@, bytes_per_sector).1) {
                Ok(f) => r matches Some(x) && x@ == f,
                Err(_) => r is None,
            },
        },
{
    match apply_fixups(rec, bytes_per_sector) {
        Err(_) => None,
        Ok(()) => match parse(rec) {
            Ok(f) => Some(f),
            Err(_) => None,
        },
    }
}

/// How many bytes to read at a time: the largest whole number of
/// records within [`CHUNK_TARGET`], and at least one record.
pub open spec fn chunk_size_of(record_size: usize) -> int {
    let k = CHUNK_TARGET / record_size;
    (if k < 1 {
        1
    } else {
        k
    }) * record_size
}

pub fn chunk_size(record_size: usize) -> (s: usize)
    requires
        record_size > 0,
        chunk_size_of(record_size) <= usize::MAX,
    ensures
        s == chunk_size_of(record_size),
{
    let k = CHUNK_TARGET / record_size;
    let k = if k < 1 {
        1
    } else {
        k
    };
    k * record_size
}

// ---------------------------------------------------------------------
// The index of records
// ---------------------------------------------------------------------

/// One record's worth of extracted fields, held at its record number.
pub struct Entry {
    pub name: String,
    pub parent: u32,
    pub flags: NodeFlags,
    pub size_logical: u64,
    pub size_alloc: u64,
    pub mtime: i64,
    /// Whether a base record in use was merged here.
    pub present: bool,
}

/// An [`Entry`] with its name as characters.
pub struct EntryFacts {
    pub name: Seq<char>,
    pub parent: u32,
    pub flags: NodeFlags,
    pub size_logical: u64,
    pub size_alloc: u64,
    pub mtime: i64,
    pub present: bool,
}

impl View for Entry {
    type V = EntryFacts;

    open spec fn view(&self) -> EntryFacts {
        EntryFacts {
            name: self.name@,
            parent: self.parent,
            flags: self.flags,
            size_logical: self.size_logical,
            size_alloc: self.size_alloc,
            mtime: self.mtime,
            present: self.present,
        }
    }
}

/// The entry of a record number nothing was merged at.
pub open spec fn blank_entry() -> EntryFacts {
    EntryFacts {
        name: Seq::empty(),
        parent: 0,
        flags: NodeFlags(0),
        size_logical: 0,
        size_alloc: 0,
        mtime: 0,
        present: false,
    }
}

fn blank() -> (e: Entry)
    ensures
        e@ == blank_entry(),
{
    Entry {
        name: String::new(),
        parent: 0,
        flags: NodeFlags(0),
        size_logical: 0,
        size_alloc: 0,
        mtime: 0,
        present: false,
    }
}

pub open spec fn entry_views(v: Seq<Entry>) -> Seq<EntryFacts> {
    v.map_values(|e: Entry| e@)
}

/// `e` lengthened with blank entries up to `len`.
pub open spec fn grown_to(e: Seq<EntryFacts>, len: int) -> Seq<EntryFacts> {
    if e.len() >= len {
        e
    } else {
        e + Seq::new((len - e.len()) as nat, |i: int| blank_entry())
    }
}

/// What folding record `number` into the entries gives, and whether it
/// counted as a file. Extension records (whose contents belong to their
/// base record), records not in use, and records without a name or a
/// parent, or numbered beyond `u32`, leave the entries as they were.
pub open spec fn merged(e: Seq<EntryFacts>, number: u64, r: FileFacts) -> (Seq<EntryFacts>, bool) {
    if !r.in_use || r.base_record != 0 {
        (e, false)
    } else {
        match (r.name, r.parent) {
            (Some(name), Some(parent)) => if number > u32::MAX || parent > u32::MAX {
                (e, false)
            } else {
                (
                    grown_to(e, number + 1).update(
                        number as int,
                        EntryFacts {
                            name,
                            parent: parent as u32,
                            flags: if r.is_dir {
                                NodeFlags(1)
                            } else {
                                NodeFlags(0)
                            },
                            size_logical: r.size_logical,
                            size_alloc: r.size_alloc,
                            mtime: r.mtime,
                            present: true,
                        },
                    ),
                    !r.is_dir,
                )
            },
            _ => (e, false),
        }
    }
}

/// The parsed records of a volume, indexed by record number.
pub struct Index {
    entries: Vec<Entry>,
}

impl Index {
    pub closed spec fn facts(&self) -> Seq<EntryFacts> {
        entry_views(self.entries@)
    }

    /// An index expecting about `records` records.
    pub fn new(records: usize) -> (ix: Index)
        requires
            records < usize::MAX,
        ensures
            ix.facts() == Seq::new((records + 1) as nat, |i: int| blank_entry()),
    {
        let mut entries: Vec<Entry> = Vec::new();
        let mut i: usize = 0;
        while i <= records
            invariant
                i <= records + 1,
                records < usize::MAX,
                entries@.len() == i,
                entry_views(entries@) == Seq::new(i as nat, |k: int| blank_entry()),
            decreases records + 1 - i,
        {
            let ghost before = entries@;
            entries.push(blank());
            proof {
                let v = entry_views(entries@);
                assert forall|k: int| 0 <= k < i + 1 implies v[k] == blank_entry() by {
                    if k < i {
                        assert(entries@[k] == before[k]);
                        assert(entry_views(before)[k] == blank_entry());
                    }
                }
                assert(v =~= Seq::new((i + 1) as nat, |k: int| blank_entry()));
            }
            i = i + 1;
        }
        Index { entries }
    }

    pub fn len(&self) -> (n: usize)
        ensures
            n == self.facts().len(),
    {
        self.entries.len()
    }

    /// Fold one parsed record into the index. Returns whether it counted
    /// as a file, for progress reporting.
    pub fn merge(&mut self, number: u64, parsed: FileRecord) -> (counted: bool)
        requires
            (number as int) < usize::MAX || number > u32::MAX,
        ensures
            (final(self).facts(), counted) == merged(old(self).facts(), number, parsed@),
    {
        if !parsed.in_use || parsed.base_record != 0 {
            return false;
        }
        let FileRecord { name, parent, is_dir, size_logical, size_alloc, mtime, .. } = parsed;
        let (name, parent) = match (name, parent) {
            (Some(n), Some(p)) => (n, p),
            _ => return false,
        };
        if number > 0xffff_ffff || parent > 0xffff_ffff {
            return false;
        }
        let idx = number as usize;
        let ghost e0 = self.facts();
        while self.entries.len() <= idx
            invariant
                idx == number,
                (number as int) < usize::MAX,
                self.entries@.len() >= e0.len(),
                entry_views(self.entries@) == grown_to(e0, self.entries@.len() as int),
                self.entries@.len() <= grown_to(e0, number + 1).len(),
            decreases number + 1 - self.entries@.len(),
        {
            let ghost before = self.entries@;
            self.entries.push(blank());
            proof {
                let g = grown_to(e0, self.entries@.len() as int);
                let v = entry_views(self.entries@);
                assert forall|i: int| 0 <= i < g.len() implies v[i] == g[i] by {
                    if i < before.len() {
                        assert(self.entries@[i] == before[i]);
                        assert(entry_views(before)[i] == v[i]);
                        if i < e0.len() {
                            assert(g[i] == e0[i]);
                        }
                    }
                }
                assert(v =~= g);
            }
        }
        proof {
            assert(grown_to(e0, self.entries@.len() as int) == grown_to(e0, number + 1));
        }
        let flags = if is_dir {
            NodeFlags(1)
        } else {
            NodeFlags(0)
        };
        let entry = Entry {
            name,
            parent: parent as u32,
            flags,
            size_logical,
            size_alloc,
            mtime,
            present: true,
        };
        let ghost mid = self.entries@;
        self.entries.set(idx, entry);
        proof {
            assert(entry_views(self.entries@) =~= entry_views(mid).update(number as int, entry@));
        }
        !is_dir
    }
}

// ---------------------------------------------------------------------
// Rebuilding the hierarchy
// ---------------------------------------------------------------------

/// Record `r` is listed under record `p`: a base record in use, not the
/// root record itself, naming `p` as its parent.
pub open spec fn hangs_under(e: Seq<EntryFacts>, r: int, p: int) -> bool {
    &&& 0 <= r < e.len()
    &&& r != ROOT_RECORD
    &&& e[r].present
    &&& e[r].parent as int == p
    &&& 0 <= p < e.len()
}

/// The parent table the child index is built from, shifted by one so
/// that slot `r + 1` is record `r` and slot 0 collects every record that
/// hangs under nothing.
pub open spec fn shifted_parents(e: Seq<EntryFacts>) -> Seq<u32> {
    Seq::new(
        e.len() + 1,
        |i: int|
            if i >= 1 && hangs_under(e, i - 1, e[i - 1].parent as int) {
                (e[i - 1].parent + 1) as u32
            } else {
                0u32
            },
    )
}

/// The children of every record, laid out by record: the records that
/// hang under record `p` are `kids_of(start, len, order, p + 1)`, each
/// plus one.
fn child_table(entries: &Vec<Entry>) -> (r: (Vec<u32>, Vec<u32>, Vec<u32>, Vec<u32>))
    requires
        entries@.len() + 2 <= u32::MAX,
    ensures
        r.0@ == shifted_parents(entry_views(entries@)),
        csr_layout(r.0@, r.1@, r.2@, r.3@, entries@.len() + 1int),
{
    let n = entries.len();
    let ghost e = entry_views(entries@);
    let mut pa: Vec<u32> = Vec::new();
    pa.push(0);
    let mut i: usize = 0;
    while i < n
        invariant
            i <= n == entries@.len(),
            n + 2 <= u32::MAX,
            e == entry_views(entries@),
            pa@.len() == i + 1,
            forall|k: int| 0 <= k < i + 1 ==> #[trigger] pa@[k] == shifted_parents(e)[k],
        decreases n - i,
    {
        let ent = &entries[i];
        proof {
            assert(e[i as int] == entries@[i as int]@);
        }
        let v: u32 = if ent.present && i != 5 && (ent.parent as usize) < n {
            ent.parent + 1
        } else {
            0
        };
        pa.push(v);
        i = i + 1;
    }
    proof {
        assert(pa@ =~= shifted_parents(e));
    }
    let ghost t = (n + 1) as int;
    let ghost par = pa@;
    proof {
        assert forall|c: int| 1 <= c < t implies (#[trigger] par[c]) < t by {
            assert(par[c] == shifted_parents(e)[c]);
        }
        assert(parents_in_range(par, t));
    }
    let lens = count_children(&pa);
    let starts = child_starts(&pa, &lens);
    let order = fill_order(&pa, &starts);
    proof {
        assert(csr_layout(par, starts@, lens@, order@, t)) by {
            assert forall|p: int| 0 <= p < t implies {
                &&& #[trigger] starts@[p] == kids_before(par, p, t)
                &&& lens@[p] == count_kids(par, p, t)
                &&& starts@[p] + lens@[p] <= t - 1
            } by {
                lemma_kids_before_mono(par, p, t, t);
                lemma_kids_before_total(par, t, t);
            }
        }
    }
    (pa, starts, lens, order)
}

/// Whether the entry is a directory.
pub open spec fn is_dir_entry(x: EntryFacts) -> bool {
    x.flags.has(NodeFlags::dir_flag())
}

/// Record `r` is reached walking down from the root record through
/// directories, in at most `fuel` steps.
pub open spec fn linked(e: Seq<EntryFacts>, r: int, fuel: nat) -> bool
    decreases fuel,
{
    if r == ROOT_RECORD {
        (ROOT_RECORD as int) < e.len()
    } else if fuel == 0 {
        false
    } else {
        let p = e[r].parent as int;
        hangs_under(e, r, p) && (p == ROOT_RECORD || is_dir_entry(e[p])) && linked(e, p, (fuel - 1) as nat)
    }
}

/// Record `r` lies in the volume's hierarchy.
pub open spec fn reachable(e: Seq<EntryFacts>, r: int) -> bool {
    exists|f: nat| linked(e, r, f)
}

pub open spec fn upper_ascii(c: char) -> char {
    if 'a' <= c <= 'z' {
        ((c as u32) - 32) as char
    } else {
        c
    }
}

/// The name the drive's node gets, e.g. `C:\`.
pub open spec fn drive_name(letter: char) -> Seq<char> {
    seq![upper_ascii(letter), ':', '\\']
}

/// Record `r` is in use but does not lie in the volume's hierarchy: its
/// chain of parents never reaches the root record through directories.
pub open spec fn stray(e: Seq<EntryFacts>, r: int) -> bool {
    0 <= r < e.len() && r != ROOT_RECORD && e[r].present && !reachable(e, r)
}

/// Some record in use lies outside the hierarchy.
pub open spec fn has_strays(e: Seq<EntryFacts>) -> bool {
    exists|r: int| #[trigger] stray(e, r)
}

/// `t` is the tree of the entries `e`, node `v` standing for record
/// `rec[v]` (node 1 for the root record): every record in use other than
/// the root record has exactly one node, with that record's name, sizes
/// and time. A record of the hierarchy hangs under the node of its parent
/// record, with its own flags; every other record hangs, flagged as an
/// orphan, under a last node `<unlinked>` that exists exactly when there
/// is such a record. No record's bytes are left out.
pub open spec fn rebuilt_from(t: &Tree, e: Seq<EntryFacts>, rec: Seq<int>) -> bool {
    let u = t.node_total() - 1;
    &&& rec.len() == t.node_total()
    &&& rec[1] == ROOT_RECORD
    &&& forall|v: int|
        2 <= v < t.node_total() && !(has_strays(e) && v == u) ==> {
            let r = #[trigger] rec[v];
            &&& 0 <= r < e.len()
            &&& r != ROOT_RECORD
            &&& e[r].present
            &&& kept_name(e[r].name, t.name_at(v))
            &&& t.logical_at(v) == e[r].size_logical
            &&& t.alloc_at(v) == e[r].size_alloc
            &&& t.mtime_at(v) == e[r].mtime
            &&& reachable(e, r) ==> {
                &&& 1 <= t.parent_at(v) < v
                &&& rec[t.parent_at(v)] == e[r].parent
                &&& t.flags_at(v) == e[r].flags
            }
            &&& !reachable(e, r) ==> {
                &&& t.parent_at(v) == u
                &&& t.flags_at(v).0 == e[r].flags.0 | NodeFlags::orphan_flag().0
            }
        }
    &&& forall|v: int, w: int|
        1 <= v < w < t.node_total() && !(has_strays(e) && w == u) ==> rec[v] != rec[w]
    &&& forall|r: int|
        0 <= r < e.len() && r != ROOT_RECORD && #[trigger] e[r].present ==> exists|v: int|
            2 <= v < t.node_total() && !(has_strays(e) && v == u) && rec[v] == r
    &&& has_strays(e) ==> {
        &&& t.node_total() >= 3
        &&& t.name_at(u) == "<unlinked>"@
        &&& t.parent_at(u) == ROOT
        &&& t.flags_at(u) == NodeFlags::dir_flag()
        &&& t.logical_at(u) == 0
        &&& t.alloc_at(u) == 0
        &&& t.mtime_at(u) == 0
    }
}

pub open spec fn logical_sizes(e: Seq<EntryFacts>) -> Seq<u64> {
    Seq::new(e.len(), |r: int| e[r].size_logical)
}

pub open spec fn alloc_sizes(e: Seq<EntryFacts>) -> Seq<u64> {
    Seq::new(e.len(), |r: int| e[r].size_alloc)
}

/// Marks a record with no node yet.
pub const NO_NODE: u32 = 0xffff_ffff;

pub open spec fn count_none(s: Seq<u32>) -> nat
    decreases s.len(),
{
    if s.len() == 0 {
        0
    } else {
        count_none(s.drop_last()) + if s.last() == NO_NODE {
            1nat
        } else {
            0nat
        }
    }
}

proof fn lemma_count_none_set(s: Seq<u32>, i: int, x: u32)
    requires
        0 <= i < s.len(),
        s[i] == NO_NODE,
        x != NO_NODE,
    ensures
        count_none(s) >= 1,
        count_none(s.update(i, x)) + 1 == count_none(s),
    decreases s.len(),
{
    let u = s.update(i, x);
    if i < s.len() - 1 {
        lemma_count_none_set(s.drop_last(), i, x);
        assert(u.drop_last() =~= s.drop_last().update(i, x));
    } else {
        assert(u.drop_last() =~= s.drop_last());
    }
}

proof fn lemma_count_none_all(n: nat)
    ensures
        count_none(Seq::new(n, |i: int| NO_NODE)) == n,
    decreases n,
{
    if n > 0 {
        lemma_count_none_all((n - 1) as nat);
        assert(Seq::new(n, |i: int| NO_NODE).drop_last() =~= Seq::new((n - 1) as nat, |i: int| NO_NODE));
    }
}

proof fn lemma_totals_push(old: Seq<RawNode>, new: Seq<RawNode>)
    requires
        new.len() == old.len() + 1,
        forall|i: int| 0 <= i < old.len() ==> new[i] == old[i],
    ensures
        total_vals(Seq::new(new.len(), |v: int| new[v].size_logical), new.len() as int) == total_vals(
            Seq::new(old.len(), |v: int| old[v].size_logical),
            old.len() as int,
        ) + new[old.len() as int].size_logical,
        total_vals(Seq::new(new.len(), |v: int| new[v].size_alloc), new.len() as int) == total_vals(
            Seq::new(old.len(), |v: int| old[v].size_alloc),
            old.len() as int,
        ) + new[old.len() as int].size_alloc,
{
    let a = Seq::new(new.len(), |v: int| new[v].size_logical);
    let b = Seq::new(old.len(), |v: int| old[v].size_logical);
    lemma_total_vals_prefix(a, b, old.len() as int);
    let c = Seq::new(new.len(), |v: int| new[v].size_alloc);
    let d = Seq::new(old.len(), |v: int| old[v].size_alloc);
    lemma_total_vals_prefix(c, d, old.len() as int);
}

proof fn lemma_sum_all(vals: Seq<u64>, n: nat)
    requires
        n <= vals.len(),
        n <= u32::MAX + 1,
    ensures
        sum_vals(Seq::new(n, |i: int| i as u32), vals) == total_vals(vals, n as int),
    decreases n,
{
    if n > 0 {
        lemma_sum_all(vals, (n - 1) as nat);
        assert(Seq::new(n, |i: int| i as u32).drop_last() =~= Seq::new((n - 1) as nat, |i: int| i as u32));
    }
}

/// Nodes pushed so far stand for distinct records in use, each under the
/// node of its parent record.
spec fn nodes_ok(
    recs: Seq<RawNode>,
    e: Seq<EntryFacts>,
    rec: Seq<int>,
    node_of: Seq<u32>,
    listed: Seq<u32>,
) -> bool {
    &&& rec.len() == recs.len() >= 2
    &&& listed.len() + 2 == rec.len()
    &&& rec[1] == ROOT_RECORD
    &&& node_of.len() == e.len()
    &&& forall|k: int| 0 <= k < listed.len() ==> #[trigger] listed[k] as int == rec[k + 2]
    &&& forall|v: int|
        2 <= v < rec.len() ==> {
            let r = #[trigger] rec[v];
            &&& 0 <= r < e.len()
            &&& r != ROOT_RECORD
            &&& e[r].present
            &&& node_of[r] as int == v
            &&& 1 <= recs[v].parent < v
            &&& rec[recs[v].parent as int] == e[r].parent
            &&& hangs_under(e, r, rec[recs[v].parent as int])
            &&& (rec[recs[v].parent as int] == ROOT_RECORD || is_dir_entry(e[rec[recs[v].parent as int]]))
            &&& kept_name(e[r].name, recs[v].name@)
            &&& recs[v].size_logical == e[r].size_logical
            &&& recs[v].size_alloc == e[r].size_alloc
            &&& recs[v].mtime == e[r].mtime
            &&& recs[v].flags == e[r].flags
        }
    &&& forall|r: int|
        0 <= r < e.len() && #[trigger] node_of[r] != NO_NODE ==> 1 <= node_of[r] < rec.len()
            && rec[node_of[r] as int] == r
    &&& (ROOT_RECORD as int) < e.len() ==> node_of[ROOT_RECORD as int] == 1
}


/// The state of the walk down from the root record.
struct Walk {
    builder: TreeBuilder,
    /// The node each record got, or [`NO_NODE`].
    node_of: Vec<u32>,
    /// Directories whose children are still to be visited.
    stack: Vec<u32>,
    /// The record each node stands for.
    rec: Ghost<Seq<int>>,
    /// The records given a node, in order.
    listed: Ghost<Seq<u32>>,
}

impl Walk {
    #[verifier::opaque]
    spec fn ok(&self, e: Seq<EntryFacts>, first_two: Seq<RawNode>) -> bool {
        let n = e.len();
        &&& n + 2 <= u32::MAX
        &&& first_two.len() == 2
        &&& nodes_ok(self.builder.records(), e, self.rec@, self.node_of@, self.listed@)
        &&& self.builder.records()[0] == first_two[0]
        &&& self.builder.records()[1] == first_two[1]
        &&& self.rec@.len() + count_none(self.node_of@) == n + 1 + if 5 < n {
            0int
        } else {
            1int
        }
        &&& self.listed@.no_duplicates()
        &&& forall|k: int| 0 <= k < self.listed@.len() ==> #[trigger] self.listed@[k] < n
        &&& self.builder.logical_total() == sum_vals(self.listed@, logical_sizes(e))
        &&& self.builder.alloc_total() == sum_vals(self.listed@, alloc_sizes(e))
        &&& forall|k: int|
            0 <= k < self.stack@.len() ==> {
                let s = #[trigger] self.stack@[k] as int;
                &&& 0 <= s < n
                &&& self.node_of@[s] != NO_NODE
                &&& (s == ROOT_RECORD || is_dir_entry(e[s]))
            }
    }

    /// Takes the next directory off the stack.
    fn pop(&mut self, Ghost(e): Ghost<Seq<EntryFacts>>, Ghost(first_two): Ghost<Seq<RawNode>>) -> (top: u32)
        requires
            old(self).ok(e, first_two),
            old(self).stack@.len() > 0,
        ensures
            final(self).ok(e, first_two),
            final(self).stack@ == old(self).stack@.drop_last(),
            top == old(self).stack@.last(),
            top < e.len(),
            final(self).node_of@ == old(self).node_of@,
            final(self).node_of@[top as int] != NO_NODE,
            top == ROOT_RECORD || is_dir_entry(e[top as int]),
    {
        proof {
            reveal(Walk::ok);
        }
        let ghost s0 = self.stack@;
        let top = self.stack.pop().unwrap();
        proof {
            assert(s0[s0.len() - 1] == top);
            assert(self.stack@ =~= s0.drop_last());
            assert forall|k: int| 0 <= k < self.stack@.len() implies #[trigger] self.stack@[k] == s0[k] by {}
        }
        top
    }

    /// Gives record `child` a node under `parent_node`, and queues it if
    /// it is a directory.
    fn visit(&mut self, entries: &Vec<Entry>, child: usize, parent_node: u32, Ghost(first_two): Ghost<Seq<RawNode>>)
        requires
            old(self).ok(entry_views(entries@), first_two),
            old(self).node_of@.len() == entries@.len(),
            child < entries@.len(),
            child != ROOT_RECORD,
            entries@[child as int].present,
            old(self).node_of@[child as int] == NO_NODE,
            1 <= parent_node < old(self).rec@.len(),
            old(self).rec@[parent_node as int] == entries@[child as int].parent,
            hangs_under(entry_views(entries@), child as int, old(self).rec@[parent_node as int]),
            old(self).rec@[parent_node as int] == ROOT_RECORD || is_dir_entry(
                entry_views(entries@)[old(self).rec@[parent_node as int]],
            ),
        ensures
            final(self).ok(entry_views(entries@), first_two),
            final(self).node_of@.len() == entries@.len(),
            final(self).node_of@[child as int] != NO_NODE,
            count_none(final(self).node_of@) + 1 == count_none(old(self).node_of@),
            forall|r: int| 0 <= r < entries@.len() && r != child ==> #[trigger] final(self).node_of@[r] == old(self).node_of@[r],
            final(self).stack@ == if is_dir_entry(entry_views(entries@)[child as int]) {
                old(self).stack@.push(child as u32)
            } else {
                old(self).stack@
            },
    {
        let ghost e = entry_views(entries@);
        let ghost n = e.len();
        let ent = &entries[child];
        proof {
            reveal(Walk::ok);
            assert(e[child as int] == entries@[child as int]@);
            lemma_count_none_set(self.node_of@, child as int, 0);
            assert(self.builder.records().len() == self.rec@.len());
        }
        let ghost before_recs = self.builder.records();
        let node = self.builder.push(
            RawNode {
                parent: parent_node,
                name: ent.name.clone(),
                size_logical: ent.size_logical,
                size_alloc: ent.size_alloc,
                mtime: ent.mtime,
                flags: ent.flags,
            },
        );
        proof {
            lemma_count_none_set(self.node_of@, child as int, node);
            lemma_totals_push(before_recs, self.builder.records());
        }
        let ghost old_node_of = self.node_of@;
        let ghost old_rec = self.rec@;
        let ghost old_listed = self.listed@;
        self.node_of.set(child, node);
        proof {
            self.rec@ = self.rec@.push(child as int);
            self.listed@ = self.listed@.push(child as u32);
        }
        if ent.flags.contains(NodeFlags::dir()) {
            self.stack.push(child as u32);
        }
        proof {
            let recs = self.builder.records();
            let rec = self.rec@;
            let listed = self.listed@;
            let node_of = self.node_of@;
            assert forall|k: int| 0 <= k < listed.len() implies #[trigger] listed[k] as int == rec[k + 2] by {
                if k < old_listed.len() {
                    assert(listed[k] == old_listed[k]);
                }
            }
            assert forall|v: int| 2 <= v < rec.len() implies {
                let r = #[trigger] rec[v];
                &&& 0 <= r < e.len()
                &&& r != ROOT_RECORD
                &&& e[r].present
                &&& node_of[r] as int == v
                &&& 1 <= recs[v].parent < v
                &&& rec[recs[v].parent as int] == e[r].parent
                &&& hangs_under(e, r, rec[recs[v].parent as int])
                &&& (rec[recs[v].parent as int] == ROOT_RECORD || is_dir_entry(e[rec[recs[v].parent as int]]))
                &&& kept_name(e[r].name, recs[v].name@)
                &&& recs[v].size_logical == e[r].size_logical
                &&& recs[v].size_alloc == e[r].size_alloc
                &&& recs[v].mtime == e[r].mtime
                &&& recs[v].flags == e[r].flags
            } by {
                if v < old_rec.len() {
                    assert(rec[v] == old_rec[v]);
                    assert(recs[v] == before_recs[v]);
                    let r = old_rec[v];
                    assert(old_node_of[r] as int == v);
                    assert(r != child);
                    assert(rec[recs[v].parent as int] == old_rec[recs[v].parent as int]);
                } else {
                    assert(v == old_rec.len());
                    assert(rec[v] == child);
                }
            }
            assert forall|r: int| 0 <= r < e.len() && #[trigger] node_of[r] != NO_NODE implies 1 <= node_of[r]
                < rec.len() && rec[node_of[r] as int] == r by {
                if r != child {
                    assert(node_of[r] == old_node_of[r]);
                    assert(rec[node_of[r] as int] == old_rec[node_of[r] as int]);
                }
            }
            assert(listed.no_duplicates()) by {
                assert forall|a: int, b: int| 0 <= a < b < listed.len() implies listed[a] != listed[b] by {
                    if b == listed.len() - 1 {
                        assert(old_listed[a] as int == old_rec[a + 2]);
                        assert(old_node_of[old_rec[a + 2]] as int == a + 2);
                    } else {
                        assert(old_listed[a] != old_listed[b]);
                    }
                }
            }
            assert(listed.drop_last() =~= old_listed);
            assert(listed.last() == child as u32);
            assert(sum_vals(listed, logical_sizes(e)) == sum_vals(old_listed, logical_sizes(e)) + e[child as int].size_logical);
            assert(sum_vals(listed, alloc_sizes(e)) == sum_vals(old_listed, alloc_sizes(e)) + e[child as int].size_alloc);
            assert(nodes_ok(recs, e, rec, node_of, listed));
            reveal(Walk::ok);
            assert(self.ok(e, first_two));
        }
    }
    /// Visits the records hanging under `top`, in record order, giving a
    /// node to each that has none yet.
    #[verifier::rlimit(30)]
    fn expand(
        &mut self,
        entries: &Vec<Entry>,
        starts: &Vec<u32>,
        lens: &Vec<u32>,
        order: &Vec<u32>,
        top: u32,
        Ghost(first_two): Ghost<Seq<RawNode>>,
        Ghost(pa): Ghost<Seq<u32>>,
    )
        requires
            old(self).ok(entry_views(entries@), first_two),
            old(self).node_of@.len() == entries@.len(),
            pa == shifted_parents(entry_views(entries@)),
            csr_layout(pa, starts@, lens@, order@, entries@.len() + 1int),
            top < entries@.len(),
            old(self).node_of@[top as int] != NO_NODE,
            top == ROOT_RECORD || is_dir_entry(entry_views(entries@)[top as int]),
        ensures
            final(self).ok(entry_views(entries@), first_two),
            final(self).node_of@.len() == entries@.len(),
            forall|c: int| #[trigger] hangs_under(entry_views(entries@), c, top as int) ==> final(self).node_of@[c] != NO_NODE,
            forall|r: int| 0 <= r < entries@.len() && old(self).node_of@[r] != NO_NODE ==> #[trigger] final(self).node_of@[r] != NO_NODE,
            forall|r: int|
                0 <= r < entries@.len() && old(self).node_of@[r] == NO_NODE && #[trigger] final(self).node_of@[r] != NO_NODE
                    && (r == ROOT_RECORD || is_dir_entry(entry_views(entries@)[r])) ==> final(self).stack@.contains(r as u32),
            forall|k: int| 0 <= k < old(self).stack@.len() ==> #[trigger] final(self).stack@[k] == old(self).stack@[k],
            final(self).stack@.len() >= old(self).stack@.len(),
            count_none(final(self).node_of@) <= count_none(old(self).node_of@),
            final(self).stack@.len() <= old(self).stack@.len() + (count_none(old(self).node_of@) - count_none(final(self).node_of@)),
    {
        let ghost e = entry_views(entries@);
        let ghost n = e.len();
        let ghost t: int = n + 1int;
        let ghost none0 = count_none(self.node_of@);
        let ghost node_of0 = self.node_of@;
        let ghost stack0 = self.stack@;
        let parent_node = self.node_of[top as usize];
        let slot = (top + 1) as usize;
        let from = starts[slot] as usize;
        let len = lens[slot] as usize;
        let ghost kids = kids_of(starts@, lens@, order@, slot as int);
        proof {
            reveal(Walk::ok);
            assert(self.rec@[parent_node as int] == top as int);
            assert(1 <= parent_node < self.rec@.len());
        }
        let mut j: usize = 0;
        while j < len
            invariant
                n == e.len() == entries@.len(),
                e == entry_views(entries@),
                t == n + 1,
                pa == shifted_parents(e),
                csr_layout(pa, starts@, lens@, order@, t),
                0 <= top < n,
                top == ROOT_RECORD || is_dir_entry(e[top as int]),
                slot == top + 1,
                from == starts@[slot as int],
                len == lens@[slot as int],
                kids == kids_of(starts@, lens@, order@, slot as int),
                parent_node == self.node_of@[top as int],
                parent_node != NO_NODE,
                self.rec@[parent_node as int] == top as int,
                1 <= parent_node < self.rec@.len(),
                self.ok(e, first_two),
                self.node_of@.len() == n,
                self.stack@.len() >= stack0.len(),
                count_none(self.node_of@) <= none0,
                self.stack@.len() <= stack0.len() + (none0 - count_none(self.node_of@)),
                forall|k: int| 0 <= k < stack0.len() ==> #[trigger] self.stack@[k] == stack0[k],
                forall|r: int| 0 <= r < n && node_of0[r] != NO_NODE ==> #[trigger] self.node_of@[r] != NO_NODE,
                forall|r: int|
                    0 <= r < n && node_of0[r] == NO_NODE && #[trigger] self.node_of@[r] != NO_NODE
                        && (r == ROOT_RECORD || is_dir_entry(e[r])) ==> self.stack@.contains(r as u32),
                forall|q: int| 0 <= q < j ==> self.node_of@[kids[q] - 1] != NO_NODE,
            decreases len - j,
        {
            let k = order[from + j];
            proof {
                assert(kids[j as int] == k);
                crate::csr::lemma_kids_element(pa, starts@, lens@, order@, t, slot as int, j as int);
            }
            let child = (k - 1) as usize;
            if self.node_of[child] == NO_NODE {
                proof {
                    assert(pa[k as int] == slot);
                    assert(hangs_under(e, child as int, top as int));
                    assert(e[child as int] == entries@[child as int]@);
                }
                let ghost s_before = self.stack@;
                let ghost n_before = self.node_of@;
                self.visit(entries, child, parent_node, Ghost(first_two));
                proof {
                    assert forall|r: int|
                        0 <= r < n && node_of0[r] == NO_NODE && #[trigger] self.node_of@[r] != NO_NODE
                            && (r == ROOT_RECORD || is_dir_entry(e[r])) implies self.stack@.contains(r as u32) by {
                        if r == child {
                            assert(self.stack@[self.stack@.len() - 1] == child as u32);
                        } else {
                            assert(n_before[r] == self.node_of@[r]);
                            let m = choose|m: int| 0 <= m < s_before.len() && s_before[m] == r as u32;
                            assert(self.stack@[m] == s_before[m]);
                        }
                    }
                    reveal(Walk::ok);
                    assert(self.rec@[parent_node as int] == top as int);
                    assert(self.rec@.len() >= 2);
                }
            }
            j = j + 1;
        }
        proof {
            assert forall|c: int| #[trigger] hangs_under(e, c, top as int) implies self.node_of@[c] != NO_NODE by {
                lemma_kids_membership(pa, starts@, lens@, order@, t, slot as int, c + 1);
                assert(pa[c + 1] == slot);
                let q = choose|q: int| 0 <= q < kids.len() && kids[q] == (c + 1) as u32;
            }
        }
    }
}


/// With the walk over, every record under a visited directory has a node,
/// and so does every record of the hierarchy.
proof fn lemma_reached(e: Seq<EntryFacts>, node_of: Seq<u32>, r: int, f: nat)
    requires
        node_of.len() == e.len(),
        (ROOT_RECORD as int) < e.len() ==> node_of[ROOT_RECORD as int] != NO_NODE,
        forall|a: int, c: int|
            0 <= a < e.len() && node_of[a] != NO_NODE && (a == ROOT_RECORD || is_dir_entry(e[a]))
                && #[trigger] hangs_under(e, c, a) ==> node_of[c] != NO_NODE,
        0 <= r < e.len(),
        linked(e, r, f),
    ensures
        node_of[r] != NO_NODE,
    decreases f,
{
    if r != ROOT_RECORD {
        let p = e[r].parent as int;
        lemma_reached(e, node_of, p, (f - 1) as nat);
        assert(hangs_under(e, r, p));
    }
}

/// Every visited directory whose children have all been looked at (it is
/// off the stack) has a node for each record under it.
spec fn closed_under(e: Seq<EntryFacts>, node_of: Seq<u32>, stack: Seq<u32>) -> bool {
    forall|a: int, c: int|
        0 <= a < e.len() && node_of[a] != NO_NODE && (a == ROOT_RECORD || is_dir_entry(e[a]))
            && !stack.contains(a as u32) && #[trigger] hangs_under(e, c, a) ==> node_of[c] != NO_NODE
}

proof fn lemma_closed_step(
    e: Seq<EntryFacts>,
    node_of0: Seq<u32>,
    stack0: Seq<u32>,
    node_of1: Seq<u32>,
    stack1: Seq<u32>,
    top: u32,
)
    requires
        closed_under(e, node_of0, stack0),
        stack0.len() >= 1,
        stack0.last() == top,
        node_of0.len() == e.len(),
        node_of1.len() == e.len(),
        forall|c: int| #[trigger] hangs_under(e, c, top as int) ==> node_of1[c] != NO_NODE,
        forall|r: int| 0 <= r < e.len() && node_of0[r] != NO_NODE ==> #[trigger] node_of1[r] != NO_NODE,
        forall|r: int|
            0 <= r < e.len() && node_of0[r] == NO_NODE && #[trigger] node_of1[r] != NO_NODE && (r == ROOT_RECORD
                || is_dir_entry(e[r])) ==> stack1.contains(r as u32),
        forall|k: int| 0 <= k < stack0.len() - 1 ==> #[trigger] stack1[k] == stack0[k],
        stack1.len() >= stack0.len() - 1,
    ensures
        closed_under(e, node_of1, stack1),
{
    assert forall|a: int, c: int|
        0 <= a < e.len() && node_of1[a] != NO_NODE && (a == ROOT_RECORD || is_dir_entry(e[a]))
            && !stack1.contains(a as u32) && #[trigger] hangs_under(e, c, a) implies node_of1[c] != NO_NODE by {
        if a == top as int {
            assert(hangs_under(e, c, top as int));
        } else {
            if node_of0[a] != NO_NODE {
                if stack0.contains(a as u32) {
                    let k = choose|k: int| 0 <= k < stack0.len() && stack0[k] == a as u32;
                    assert(k < stack0.len() - 1);
                    assert(stack1[k] == stack0[k]);
                    assert(stack1.contains(a as u32));
                }
                assert(node_of0[c] != NO_NODE);
                assert(0 <= c < e.len());
                assert(node_of1[c] != NO_NODE);
            } else {
                assert(stack1.contains(a as u32));
            }
        }
    }
}

/// The facts about the drive's node that the walk keeps.
spec fn drive_node(r: RawNode, letter: char) -> bool {
    &&& r.parent == ROOT
    &&& kept_name(drive_name(letter), r.name@)
    &&& r.size_logical == 0
    &&& r.size_alloc == 0
    &&& r.mtime == 0
    &&& r.flags == NodeFlags::dir_flag()
}

/// A builder holding the synthetic root and the drive's node, with the
/// root record (if the table has one) mapped to the drive and queued.
fn start_walk(n: usize, drive_letter: char, Ghost(e): Ghost<Seq<EntryFacts>>) -> (r: (Walk, Ghost<Seq<RawNode>>))
    requires
        n == e.len(),
        n + 2 <= u32::MAX,
    ensures
        r.0.ok(e, r.1@),
        r.0.node_of@.len() == n,
        closed_under(e, r.0.node_of@, r.0.stack@),
        drive_node(r.1@[1], drive_letter),
        r.1@[0].parent == ROOT,
{
    let mut builder = TreeBuilder::new();
    let upper = if 'a' <= drive_letter && drive_letter <= 'z' {
        ((drive_letter as u8) - 32) as char
    } else {
        drive_letter
    };
    let mut drive = String::new();
    crate::text::push_char(&mut drive, upper);
    crate::text::push_char(&mut drive, ':');
    crate::text::push_char(&mut drive, '\\');
    proof {
        assert(upper == upper_ascii(drive_letter));
        assert(drive@ =~= drive_name(drive_letter));
    }
    let root = builder.push(
        RawNode {
            parent: ROOT,
            name: drive,
            size_logical: 0,
            size_alloc: 0,
            mtime: 0,
            flags: NodeFlags::dir(),
        },
    );
    let ghost first_two = builder.records();
    let mut node_of: Vec<u32> = Vec::new();
    let mut i: usize = 0;
    while i < n
        invariant
            i <= n,
            node_of@ == Seq::new(i as nat, |k: int| NO_NODE),
        decreases n - i,
    {
        node_of.push(NO_NODE);
        proof {
            assert(node_of@ =~= Seq::new((i + 1) as nat, |k: int| NO_NODE));
        }
        i = i + 1;
    }
    proof {
        lemma_count_none_all(n as nat);
    }
    let ghost blank_map = node_of@;
    let mut stack: Vec<u32> = Vec::new();
    if 5 < n {
        proof {
            lemma_count_none_set(node_of@, 5, 1);
        }
        node_of.set(5, root);
        stack.push(ROOT_RECORD);
    }
    let ghost rec0: Seq<int> = seq![-1int, ROOT_RECORD as int];
    let ghost listed0: Seq<u32> = Seq::empty();
    let w = Walk { builder, node_of, stack, rec: Ghost(rec0), listed: Ghost(listed0) };
    proof {
        assert(sum_vals(w.listed@, logical_sizes(e)) == 0);
        assert(w.builder.logical_total() == 0) by {
            reveal_with_fuel(total_vals, 3);
        }
        assert(w.builder.alloc_total() == 0) by {
            reveal_with_fuel(total_vals, 3);
        }
        reveal(Walk::ok);
        assert(w.ok(e, first_two));
        assert forall|a: int, c: int|
            0 <= a < n && w.node_of@[a] != NO_NODE && (a == ROOT_RECORD || is_dir_entry(e[a]))
                && !w.stack@.contains(a as u32) && #[trigger] hangs_under(e, c, a) implies w.node_of@[c]
                != NO_NODE by {
            if 5 < n {
                assert(w.stack@[0] == ROOT_RECORD);
                if a != ROOT_RECORD {
                    assert(w.node_of@[a] == blank_map[a]);
                }
            } else {
                assert(w.node_of@[a] == blank_map[a]);
            }
        }
        assert(closed_under(e, w.node_of@, w.stack@));
    }
    (w, Ghost(first_two))
}

/// A finished walk is ready to finalize: parents come first, nothing is
/// orphaned, the totals fit, and its nodes are those of `nodes_ok`.
proof fn lemma_walk_done(w: &Walk, e: Seq<EntryFacts>, first_two: Seq<RawNode>)
    requires
        w.ok(e, first_two),
        w.node_of@.len() == e.len(),
        closed_under(e, w.node_of@, w.stack@),
        w.stack@.len() == 0,
        first_two[1].parent == ROOT,
        total_vals(logical_sizes(e), e.len() as int) <= u64::MAX,
        total_vals(alloc_sizes(e), e.len() as int) <= u64::MAX,
    ensures
        nodes_ok(w.builder.records(), e, w.rec@, w.node_of@, w.listed@),
        w.builder.records()[1] == first_two[1],
        w.builder.parents_precede(),
        !w.builder.has_orphans(),
        w.builder.logical_total() <= u64::MAX,
        w.builder.alloc_total() <= u64::MAX,
        forall|a: int, c: int|
            0 <= a < e.len() && w.node_of@[a] != NO_NODE && (a == ROOT_RECORD || is_dir_entry(e[a]))
                && #[trigger] hangs_under(e, c, a) ==> w.node_of@[c] != NO_NODE,
{
    let n = e.len();
    let recs = w.builder.records();
    let rec = w.rec@;
    let node_of = w.node_of@;
    let listed = w.listed@;
    {
        reveal(Walk::ok);
        assert(nodes_ok(recs, e, rec, node_of, listed));
        assert forall|a: int, c: int|
            0 <= a < n && node_of[a] != NO_NODE && (a == ROOT_RECORD || is_dir_entry(e[a]))
                && #[trigger] hangs_under(e, c, a) implies node_of[c] != NO_NODE by {
            assert(!w.stack@.contains(a as u32));
        }
        let all = Seq::new(n as nat, |i: int| i as u32);
        assert forall|k: int| 0 <= k < listed.len() implies all.contains(#[trigger] listed[k]) by {
            assert(all[listed[k] as int] == listed[k]);
        }
        lemma_sum_vals_subset(listed, all, logical_sizes(e));
        lemma_sum_vals_subset(listed, all, alloc_sizes(e));
        lemma_sum_all(logical_sizes(e), n as nat);
        lemma_sum_all(alloc_sizes(e), n as nat);
        assert forall|i: int| 1 <= i < recs.len() implies {
            let p = #[trigger] recs[i].parent as int;
            p < i
        } by {
            if i == 1 {
                assert(recs[1] == first_two[1]);
            } else {
                let r = rec[i];
                assert(1 <= recs[i].parent < i);
            }
        }
        assert(w.builder.parents_precede());
        assert(!w.builder.has_orphans()) by {
            if w.builder.has_orphans() {
                let i = choose|i: int| #[trigger] w.builder.is_orphan(i);
                assert(recs[i].parent < i);
            }
        }
    }
}

/// A walked node's record lies in the hierarchy.
proof fn lemma_walked_linked(
    recs: Seq<RawNode>,
    e: Seq<EntryFacts>,
    rec: Seq<int>,
    node_of: Seq<u32>,
    listed: Seq<u32>,
    v: int,
    f: nat,
)
    requires
        nodes_ok(recs, e, rec, node_of, listed),
        2 <= v < rec.len(),
        f >= v,
    ensures
        linked(e, rec[v], f),
    decreases v,
{
    let r = rec[v];
    let p = recs[v].parent as int;
    assert(1 <= p < v);
    assert(hangs_under(e, r, rec[p]));
    assert(rec[p] == ROOT_RECORD || is_dir_entry(e[rec[p]]));
    assert(e[r].parent as int == rec[p]);
    if p >= 2 {
        lemma_walked_linked(recs, e, rec, node_of, listed, p, (f - 1) as nat);
    } else {
        assert(rec[p] == ROOT_RECORD);
        assert(linked(e, rec[p], (f - 1) as nat));
    }
    assert(r != ROOT_RECORD);
    assert(f > 0);
    assert(linked(e, r, f));
}

/// The walk's nodes, kept folded while the strays are added.
#[verifier::opaque]
spec fn walked(recs: Seq<RawNode>, e: Seq<EntryFacts>, rec: Seq<int>, node_of: Seq<u32>, listed: Seq<u32>) -> bool {
    nodes_ok(recs, e, rec, node_of, listed)
}

/// Distinct records of a table of `n` are at most `n`.
proof fn lemma_listed_bound(listed: Seq<u32>, x: u32, n: nat)
    requires
        listed.no_duplicates(),
        forall|k: int| 0 <= k < listed.len() ==> #[trigger] listed[k] < n,
        forall|k: int| 0 <= k < listed.len() ==> #[trigger] listed[k] != x,
        x < n,
    ensures
        listed.len() + 1 <= n,
{
    broadcast use vstd::set::group_set_axioms, vstd::seq_lib::seq_to_set_is_finite;

    let more = listed.push(x);
    let all = Seq::new(n, |k: int| k as u32);
    assert(more.no_duplicates()) by {
        assert forall|a: int, b: int| 0 <= a < b < more.len() implies more[a] != more[b] by {
            if b < listed.len() {
                assert(more[a] == listed[a] && more[b] == listed[b]);
            } else {
                assert(more[a] == listed[a]);
            }
        }
    }
    more.unique_seq_to_set();
    all.lemma_cardinality_of_set();
    assert forall|y: u32| more.to_set().contains(y) implies all.to_set().contains(y) by {
        let k = choose|k: int| 0 <= k < more.len() && more[k] == y;
        assert(all[y as int] == y);
    }
    vstd::set_lib::lemma_len_subset(more.to_set(), all.to_set());
}

/// Finalizes the walked hierarchy into a tree, each record in use that
/// the walk did not reach pushed as its own parent so that finalizing
/// detaches it under `<unlinked>`.
#[verifier::rlimit(60)]
fn finish_walk(
    w: Walk,
    entries: &Vec<Entry>,
    Ghost(first_two): Ghost<Seq<RawNode>>,
    Ghost(letter): Ghost<char>,
) -> (tree: Tree)
    requires
        w.ok(entry_views(entries@), first_two),
        w.node_of@.len() == entries@.len(),
        closed_under(entry_views(entries@), w.node_of@, w.stack@),
        w.stack@.len() == 0,
        drive_node(first_two[1], letter),
        first_two[0].parent == ROOT,
        total_vals(logical_sizes(entry_views(entries@)), entries@.len() as int) <= u64::MAX,
        total_vals(alloc_sizes(entry_views(entries@)), entries@.len() as int) <= u64::MAX,
    ensures
        tree.wf(),
        tree.node_total() >= 2,
        kept_name(drive_name(letter), tree.name_at(1)),
        tree.parent_at(1) == 0,
        tree.flags_at(1) == NodeFlags::dir_flag(),
        tree.logical_at(1) == 0,
        tree.alloc_at(1) == 0,
        exists|rec: Seq<int>| rebuilt_from(&tree, entry_views(entries@), rec),
{
    let ghost e = entry_views(entries@);
    let n = entries.len();
    proof {
        lemma_walk_done(&w, e, first_two);
        reveal(Walk::ok);
    }
    let ghost rec0 = w.rec@;
    let ghost m = rec0.len();
    let ghost listed0 = w.listed@;
    let ghost recs0 = w.builder.records();
    proof {
        assert forall|r: int| 0 <= r < n && #[trigger] reachable(e, r) implies w.node_of@[r] != NO_NODE by {
            let f = choose|f: nat| linked(e, r, f);
            lemma_reached(e, w.node_of@, r, f);
        }
        assert forall|v: int| 2 <= v < m implies #[trigger] reachable(e, rec0[v]) by {
            lemma_walked_linked(recs0, e, rec0, w.node_of@, listed0, v, v as nat);
        }
    }
    proof {
        reveal(walked);
        assert forall|v: int| 2 <= v < m implies w.node_of@[#[trigger] rec0[v]] as int == v by {}
        reveal(Walk::ok);
        assert(m <= n + 2);
    }
    let mut builder = w.builder;
    let node_of = w.node_of;
    let ghost mut rec = rec0;
    let ghost mut listed = listed0;
    let ghost all = Seq::new(n as nat, |k: int| k as u32);
    let mut i: usize = 0;
    while i < n
        invariant
            n == e.len() == entries@.len(),
            e == entry_views(entries@),
            n + 2 <= u32::MAX,
            i <= n,
            node_of@.len() == n,
            all == Seq::new(n as nat, |k: int| k as u32),
            2 <= m <= rec.len(),
            m <= n + 2,
            rec.len() == builder.records().len(),
            listed.len() + 2 == rec.len(),
            rec[1] == ROOT_RECORD,
            builder.records()[0] == first_two[0],
            builder.records()[1] == first_two[1],
            forall|v: int| 0 <= v < m ==> #[trigger] rec[v] == rec0[v],
            forall|v: int| 0 <= v < m ==> #[trigger] builder.records()[v] == recs0[v],
            forall|k: int| 0 <= k < listed.len() ==> #[trigger] listed[k] as int == rec[k + 2],
            forall|k: int| 0 <= k < listed.len() ==> #[trigger] listed[k] < n,
            listed.no_duplicates(),
            builder.logical_total() == sum_vals(listed, logical_sizes(e)),
            builder.alloc_total() == sum_vals(listed, alloc_sizes(e)),
                walked(recs0, e, rec0, node_of@, listed0),
            recs0.len() == m,
            forall|r: int|
                0 <= r < n && #[trigger] node_of@[r] != NO_NODE ==> 1 <= node_of@[r] < m && rec0[node_of@[r] as int] == r,
            forall|v: int| 2 <= v < m ==> node_of@[#[trigger] rec0[v]] as int == v,
            forall|r: int| 0 <= r < n && #[trigger] reachable(e, r) ==> node_of@[r] != NO_NODE,
            forall|v: int| 2 <= v < m ==> #[trigger] reachable(e, rec0[v]),
            forall|v: int|
                m <= v < rec.len() ==> {
                    let r = #[trigger] rec[v];
                    &&& 0 <= r < i
                    &&& r != ROOT_RECORD
                    &&& e[r].present
                    &&& node_of@[r] == NO_NODE
                    &&& builder.records()[v].parent == v
                    &&& kept_name(e[r].name, builder.records()[v].name@)
                    &&& builder.records()[v].size_logical == e[r].size_logical
                    &&& builder.records()[v].size_alloc == e[r].size_alloc
                    &&& builder.records()[v].mtime == e[r].mtime
                    &&& builder.records()[v].flags == e[r].flags
                },
            forall|r: int|
                0 <= r < i && r != ROOT_RECORD && e[r].present && #[trigger] node_of@[r] == NO_NODE
                    ==> exists|v: int| m <= v < rec.len() && rec[v] == r,
        decreases n - i,
    {
        let ent = &entries[i];
        let ghost rec_before = rec;
        proof {
            assert(e[i as int] == entries@[i as int]@);
        }
        if ent.present && i != 5 && node_of[i] == NO_NODE {
            proof {
                assert forall|k: int| 0 <= k < listed.len() implies #[trigger] listed[k] != i as u32 by {
                    let v = k + 2;
                    assert(listed[k] as int == rec[v]);
                    if v < m {
                        assert(rec[v] == rec0[v]);
                        assert(node_of@[rec0[v]] as int == v);
                    } else {
                        assert(0 <= rec[v] < i);
                    }
                }
                lemma_listed_bound(listed, i as u32, n as nat);
            }
            let id = builder.len() as u32;
            let ghost before = builder.records();
            builder.push(
                RawNode {
                    parent: id,
                    name: ent.name.clone(),
                    size_logical: ent.size_logical,
                    size_alloc: ent.size_alloc,
                    mtime: ent.mtime,
                    flags: ent.flags,
                },
            );
            proof {
                assert(ent.name@ == e[i as int].name);
                let old_listed = listed;
                lemma_totals_push(before, builder.records());
                rec = rec.push(i as int);
                listed = listed.push(i as u32);
                let recs = builder.records();
                assert forall|v: int| m <= v < rec.len() implies {
                    let r = #[trigger] rec[v];
                    &&& 0 <= r < i + 1
                    &&& r != ROOT_RECORD
                    &&& e[r].present
                    &&& node_of@[r] == NO_NODE
                    &&& recs[v].parent == v
                    &&& kept_name(e[r].name, recs[v].name@)
                    &&& recs[v].size_logical == e[r].size_logical
                    &&& recs[v].size_alloc == e[r].size_alloc
                    &&& recs[v].mtime == e[r].mtime
                    &&& recs[v].flags == e[r].flags
                } by {
                    if v < rec.len() - 1 {
                        assert(rec[v] == rec_before[v]);
                        assert(recs[v] == before[v]);
                    } else {
                        assert(rec[v] == i as int);
                        assert(v == before.len());
                    }
                }
                assert(listed.drop_last() =~= old_listed);
                assert(listed.last() == i as u32);
                assert forall|k: int| 0 <= k < listed.len() implies #[trigger] listed[k] as int == rec[k + 2] by {
                    if k < old_listed.len() {
                        assert(listed[k] == old_listed[k]);
                    }
                }
                assert(listed.no_duplicates()) by {
                    assert forall|a: int, b: int| 0 <= a < b < listed.len() implies listed[a] != listed[b] by {
                        if b < old_listed.len() {
                            assert(listed[a] == old_listed[a] && listed[b] == old_listed[b]);
                        } else {
                            assert(listed[a] == old_listed[a]);
                            let v = a + 2;
                            if v < m {
                                assert(old_listed[a] as int == rec0[v]);
                                assert(node_of@[rec0[v]] as int == v);
                            }
                        }
                    }
                }
            }
        }
        proof {
            assert forall|r: int|
                0 <= r < i + 1 && r != ROOT_RECORD && e[r].present && #[trigger] node_of@[r] == NO_NODE
                    implies exists|v: int| m <= v < rec.len() && rec[v] == r by {
                if r == i {
                    assert(rec[rec.len() - 1] == r);
                } else {
                    let v = choose|v: int| m <= v < rec_before.len() && rec_before[v] == r;
                    assert(rec[v] == rec_before[v]);
                }
            }
        }
        i = i + 1;
    }
    let ghost recs = builder.records();
    proof {
        reveal(walked);
        assert(nodes_ok(recs0, e, rec0, node_of@, listed0));
        assert forall|k: int| 0 <= k < listed.len() implies all.contains(#[trigger] listed[k]) by {
            assert(all[listed[k] as int] == listed[k]);
        }
        lemma_sum_vals_subset(listed, all, logical_sizes(e));
        lemma_sum_vals_subset(listed, all, alloc_sizes(e));
        lemma_sum_all(logical_sizes(e), n as nat);
        lemma_sum_all(alloc_sizes(e), n as nat);
        assert forall|v: int| 1 <= v < recs.len() implies {
            let p = #[trigger] recs[v].parent as int;
            p < v || p == v || p >= recs.len()
        } by {
            if v == 1 {
                assert(recs[1] == first_two[1]);
            } else if v < m {
                assert(recs[v] == recs0[v]);
                let r = rec0[v];
                assert(1 <= recs0[v].parent < v);
            } else {
                let r = rec[v];
                assert(recs[v].parent == v);
            }
        }
        assert(builder.parents_precede());
    }
    let tree = builder.finalize();
    proof {
        let b = builder;
        // The orphans of the builder are exactly the records pushed after
        // the walk, and those are exactly the stray records.
        reveal(walked);
        assert(nodes_ok(recs0, e, rec0, node_of@, listed0));
        assert forall|v: int| 1 <= v < recs.len() implies (b.is_orphan(v) <==> v >= m) by {
            if 2 <= v < m {
                assert(recs[v] == recs0[v]);
                let r = rec0[v];
                assert(1 <= recs0[v].parent < v);
            } else if v == 1 {
                assert(recs[1] == first_two[1]);
            } else {
                let r = rec[v];
                assert(recs[v].parent == v);
            }
        }
        assert forall|v: int| 2 <= v < recs.len() implies (reachable(e, #[trigger] rec[v]) <==> v < m) by {
            if v < m {
                assert(rec[v] == rec0[v]);
            } else {
                assert(node_of@[rec[v]] == NO_NODE);
            }
        }
        assert(has_strays(e) <==> b.has_orphans()) by {
            if has_strays(e) {
                let r = choose|r: int| #[trigger] stray(e, r);
                if node_of@[r] != NO_NODE {
                    let v = node_of@[r] as int;
                    assert(rec0[v] == r);
                    assert(v != 1);
                    assert(reachable(e, rec0[v]));
                }
                let v = choose|v: int| m <= v < rec.len() && rec[v] == r;
                assert(b.is_orphan(v));
            }
            if b.has_orphans() {
                let v = choose|v: int| #[trigger] b.is_orphan(v);
                assert(v >= m);
                assert(node_of@[rec[v]] == NO_NODE);
                assert(stray(e, rec[v]));
            }
        }
        let rec2 = if b.has_orphans() {
            rec.push(-1)
        } else {
            rec
        };
        let u = tree.node_total() - 1;
        assert forall|v: int| 2 <= v < tree.node_total() && !(has_strays(e) && v == u) implies {
            let r = #[trigger] rec2[v];
            &&& 0 <= r < e.len()
            &&& r != ROOT_RECORD
            &&& e[r].present
            &&& kept_name(e[r].name, tree.name_at(v))
            &&& tree.logical_at(v) == e[r].size_logical
            &&& tree.alloc_at(v) == e[r].size_alloc
            &&& tree.mtime_at(v) == e[r].mtime
            &&& reachable(e, r) ==> {
                &&& 1 <= tree.parent_at(v) < v
                &&& rec2[tree.parent_at(v)] == e[r].parent
                &&& tree.flags_at(v) == e[r].flags
            }
            &&& !reachable(e, r) ==> {
                &&& tree.parent_at(v) == u
                &&& tree.flags_at(v).0 == e[r].flags.0 | NodeFlags::orphan_flag().0
            }
        } by {
            assert(v < recs.len());
            assert(rec2[v] == rec[v]);
            let r = rec[v];
            assert(tree.name_at(v) == recs[v].name@);
            if v < m {
                assert(rec[v] == rec0[v]);
                assert(recs[v] == recs0[v]);
                assert(!b.is_orphan(v));
                let p = recs0[v].parent as int;
                assert(rec2[p] == rec[p]);
                assert(rec[p] == rec0[p]);
            } else {
                assert(b.is_orphan(v));
            }
        }
        assert forall|v: int, w: int| 1 <= v < w < tree.node_total() && !(has_strays(e) && w == u) implies rec2[v]
            != rec2[w] by {
            assert(w < recs.len());
            assert(rec2[v] == rec[v] && rec2[w] == rec[w]);
            if v == 1 {
                if w < m {
                    assert(rec[w] == rec0[w]);
                }
            } else {
                assert(listed[v - 2] as int == rec[v]);
                assert(listed[w - 2] as int == rec[w]);
            }
        }
        assert forall|r: int| 0 <= r < e.len() && r != ROOT_RECORD && #[trigger] e[r].present implies exists|v: int|
            2 <= v < tree.node_total() && !(has_strays(e) && v == u) && rec2[v] == r by {
            if node_of@[r] != NO_NODE {
                let v = node_of@[r] as int;
                assert(rec0[v] == r);
                assert(v != 1);
                assert(rec2[v] == rec[v]);
            } else {
                let v = choose|v: int| m <= v < rec.len() && rec[v] == r;
                assert(rec2[v] == rec[v]);
            }
        }
        assert(recs[1] == first_two[1]);
        assert(!b.is_orphan(1));
        assert(tree.name_at(1) == recs[1].name@);
        assert(tree.parent_at(1) == recs[1].parent as int);
        assert(tree.flags_at(1).0 == recs[1].flags.0);
        assert(tree.flags_at(1) == recs[1].flags);
        assert(rebuilt_from(&tree, e, rec2));
    }
    tree
}

/// Rebuild the directory hierarchy and finalize it into a tree.
///
/// Records arrive in table order, so a child is routinely seen before its
/// parent. Rather than sorting, this indexes children by parent and then
/// walks down from the root record, so every node is pushed after the
/// parent it references. Node 1 is the drive. A record in use that the
/// walk does not reach (its parent missing, a file, or on a cycle) is not
/// dropped: it is detached under `<unlinked>`, flagged as an orphan, with
/// its bytes.
pub fn build_tree(index: &Index, drive_letter: char) -> (r: (Tree, NodeId))
    requires
        index.facts().len() + 2 <= u32::MAX,
        total_vals(logical_sizes(index.facts()), index.facts().len() as int) <= u64::MAX,
        total_vals(alloc_sizes(index.facts()), index.facts().len() as int) <= u64::MAX,
    ensures
        r.0.wf(),
        r.1 == 1,
        r.0.node_total() >= 2,
        r.0.name_at(1) == drive_name(drive_letter),
        r.0.parent_at(1) == 0,
        r.0.flags_at(1) == NodeFlags::dir_flag(),
        r.0.logical_at(1) == 0,
        r.0.alloc_at(1) == 0,
        exists|rec: Seq<int>| rebuilt_from(&r.0, index.facts(), rec),
{
    let entries = &index.entries;
    let n = entries.len();
    let ghost e = index.facts();
    let (pa, starts, lens, order) = child_table(entries);
    let ghost t = (n + 1) as int;
    let (mut w, first_two) = start_walk(n, drive_letter, Ghost(e));
    let ghost first_two = first_two@;
    while w.stack.len() > 0
        invariant
            n == e.len() == entries@.len(),
            e == entry_views(entries@),
            t == n + 1,
            pa@ == shifted_parents(e),
            csr_layout(pa@, starts@, lens@, order@, t),
            w.ok(e, first_two),
            w.node_of@.len() == n,
            closed_under(e, w.node_of@, w.stack@),
        decreases count_none(w.node_of@), w.stack@.len(),
    {
        let ghost stack0 = w.stack@;
        let ghost node_of0 = w.node_of@;
        let top = w.pop(Ghost(e), Ghost(first_two));
        let ghost stack_mid = w.stack@;
        w.expand(entries, &starts, &lens, &order, top, Ghost(first_two), Ghost(pa@));
        proof {
            assert forall|k: int| 0 <= k < stack0.len() - 1 implies #[trigger] w.stack@[k] == stack0[k] by {
                assert(w.stack@[k] == stack_mid[k]);
            }
            lemma_closed_step(e, node_of0, stack0, w.node_of@, w.stack@, top);
        }
    }
    let tree = finish_walk(w, entries, Ghost(first_two), Ghost(drive_letter));
    proof {
        crate::digest::lemma_fit_count_short(drive_name(drive_letter), crate::tree::MAX_NAME_BYTES as int);
        assert(drive_name(drive_letter).take(3) =~= drive_name(drive_letter));
    }
    (tree, 1)
}

// ---------------------------------------------------------------------
// Reading the table
// ---------------------------------------------------------------------

/// What one record's bytes, as read, decode to; `None` when the record
/// is torn or not a FILE record.
pub open spec fn decoded(rec: Seq<u8>, bps: u32) -> Option<FileFacts> {
    match fixups_of(rec, bps).0 {
        Err(_) => None,
        Ok(_) => match record_of(fixups_of(rec, bps).1) {
            Ok(f) => Some(f),
            Err(_) => None,
        },
    }
}

/// Folding the first `k` whole records of `recs` (record `first` first)
/// into the entries: the entries after, and how many counted as files.
pub open spec fn absorbed(
    e: Seq<EntryFacts>,
    recs: Seq<u8>,
    first: int,
    rs: int,
    bps: u32,
    k: nat,
) -> (Seq<EntryFacts>, int)
    decreases k,
{
    if k == 0 {
        (e, 0)
    } else {
        let (e1, f1) = absorbed(e, recs, first, rs, bps, (k - 1) as nat);
        match decoded(recs.subrange((k - 1) * rs, k * rs), bps) {
            None => (e1, f1),
            Some(f) => {
                let (e2, counted) = merged(e1, (first + k - 1) as u64, f);
                (
                    e2,
                    f1 + if counted {
                        1int
                    } else {
                        0int
                    },
                )
            },
        }
    }
}

/// The progress of a table read: the entries, the bytes of a record not
/// yet whole, the next record's number, the files counted and the bytes of
/// whole records taken.
pub open spec fn took(
    st: (Seq<EntryFacts>, Seq<u8>, int, int, int),
    more: Seq<u8>,
    rs: int,
    bps: u32,
) -> (Seq<EntryFacts>, Seq<u8>, int, int, int) {
    let all = st.1 + more;
    let k = all.len() as int / rs;
    let (e, f) = absorbed(st.0, all, st.2, rs, bps, k as nat);
    (e, all.skip(k * rs), st.2 + k, st.3 + f, st.4 + k * rs)
}

/// Records that lie wholly inside `s` fold the same with more bytes after.
proof fn lemma_absorbed_prefix(
    e: Seq<EntryFacts>,
    s: Seq<u8>,
    t: Seq<u8>,
    first: int,
    rs: int,
    bps: u32,
    k: nat,
)
    requires
        rs > 0,
        k * rs <= s.len(),
    ensures
        absorbed(e, s + t, first, rs, bps, k) == absorbed(e, s, first, rs, bps, k),
    decreases k,
{
    if k > 0 {
        assert((k - 1) * rs == k * rs - rs) by (nonlinear_arith);
        assert(0 <= (k - 1) * rs) by (nonlinear_arith)
            requires
                k >= 1,
                rs > 0,
        ;
        lemma_absorbed_prefix(e, s, t, first, rs, bps, (k - 1) as nat);
        assert((s + t).subrange((k - 1) * rs, k * rs) =~= s.subrange((k - 1) * rs, k * rs));
    }
}

/// Folding `k1 + j` records is folding `k1`, then the next `j` from where
/// they end, numbered on from there.
proof fn lemma_absorbed_split(
    e: Seq<EntryFacts>,
    s: Seq<u8>,
    first: int,
    rs: int,
    bps: u32,
    k1: nat,
    j: nat,
)
    requires
        rs > 0,
        (k1 + j) * rs <= s.len(),
    ensures
        ({
            let (e1, f1) = absorbed(e, s, first, rs, bps, k1);
            let (e2, f2) = absorbed(e1, s.skip(k1 * rs), first + k1, rs, bps, j);
            absorbed(e, s, first, rs, bps, k1 + j) == (e2, f1 + f2)
        }),
    decreases j,
{
    assert(0 <= k1 * rs) by (nonlinear_arith)
        requires
            rs > 0,
    ;
    assert((k1 + j) * rs == k1 * rs + j * rs) by (nonlinear_arith);
    if j > 0 {
        assert((k1 + j - 1) * rs == k1 * rs + (j - 1) * rs) by (nonlinear_arith);
        assert((j - 1) * rs == j * rs - rs) by (nonlinear_arith);
        assert(0 <= (j - 1) * rs) by (nonlinear_arith)
            requires
                j >= 1,
                rs > 0,
        ;
        lemma_absorbed_split(e, s, first, rs, bps, k1, (j - 1) as nat);
        let rest = s.skip(k1 * rs);
        assert(rest.subrange((j - 1) * rs, j * rs) =~= s.subrange(
            (k1 + j - 1) * rs,
            (k1 + j) * rs,
        ));
        assert((k1 + j - 1) as nat == (k1 + (j - 1)) as nat);
    }
}

/// The number of whole records in `n` bytes after `k1` of them are gone.
proof fn lemma_whole_after(n: int, n1: int, rs: int)
    requires
        rs > 0,
        0 <= n1 <= n,
    ensures
        n1 / rs <= n / rs,
        0 <= (n1 / rs) * rs <= n1,
        (n - (n1 / rs) * rs) / rs == n / rs - n1 / rs,
{
    vstd::arithmetic::div_mod::lemma_div_is_ordered(n1, n, rs);
    vstd::arithmetic::div_mod::lemma_fundamental_div_mod(n1, rs);
    vstd::arithmetic::div_mod::lemma_fundamental_div_mod(n, rs);
    vstd::arithmetic::div_mod::lemma_div_pos_is_pos(n1, rs);
    vstd::arithmetic::div_mod::lemma_mod_pos_bound(n1, rs);
    vstd::arithmetic::div_mod::lemma_mod_pos_bound(n, rs);
    let k1 = n1 / rs;
    let k = n / rs;
    assert(0 <= k1 * rs) by (nonlinear_arith)
        requires
            k1 >= 0,
            rs > 0,
    ;
    assert(rs * k1 == k1 * rs) by (nonlinear_arith);
    assert(rs * k == k * rs) by (nonlinear_arith);
    assert(n - k1 * rs == (k - k1) * rs + n % rs) by (nonlinear_arith)
        requires
            n == rs * k + n % rs,
            rs * k == k * rs,
    ;
    vstd::arithmetic::div_mod::lemma_fundamental_div_mod_converse(n - k1 * rs, rs, k - k1, n % rs);
}

/// Reads may be split anywhere: taking `a` and then `b` leaves the table
/// read exactly where taking `a + b` in one go leaves it.
pub proof fn law_reads_may_be_split_anywhere(
    st: (Seq<EntryFacts>, Seq<u8>, int, int, int),
    a: Seq<u8>,
    b: Seq<u8>,
    rs: int,
    bps: u32,
)
    requires
        rs > 0,
    ensures
        took(took(st, a, rs, bps), b, rs, bps) == took(st, a + b, rs, bps),
{
    let all1 = st.1 + a;
    let all = st.1 + (a + b);
    assert(all =~= all1 + b);
    let n1 = all1.len() as int;
    let n = all.len() as int;
    lemma_whole_after(n, n1, rs);
    let k1 = n1 / rs;
    let k = n / rs;
    let mid = took(st, a, rs, bps);
    let all2 = mid.1 + b;
    assert(all2 =~= all.skip(k1 * rs));
    let k2 = all2.len() as int / rs;
    assert(k2 == k - k1);
    vstd::arithmetic::div_mod::lemma_fundamental_div_mod(n, rs);
    vstd::arithmetic::div_mod::lemma_mod_pos_bound(n, rs);
    vstd::arithmetic::div_mod::lemma_div_pos_is_pos(n, rs);
    assert(k * rs <= n) by (nonlinear_arith)
        requires
            n == rs * k + n % rs,
            n % rs >= 0,
    ;
    assert(k * rs == k1 * rs + k2 * rs) by (nonlinear_arith)
        requires
            k2 == k - k1,
    ;
    lemma_absorbed_prefix(st.0, all1, b, st.2, rs, bps, k1 as nat);
    lemma_absorbed_split(st.0, all, st.2, rs, bps, k1 as nat, k2 as nat);
    assert((k1 as nat + k2 as nat) as nat == k as nat);
    assert(all2.skip(k2 * rs) =~= all.skip(k * rs));
}

/// Streams the table in: bytes as read, a record split across two reads
/// carried over until it is whole, every whole record repaired, parsed
/// and folded into the index under its record number.
pub struct TableScan {
    index: Index,
    pending: Vec<u8>,
    next_record: u64,
    files_seen: u64,
    bytes_seen: u64,
    record_size: usize,
    bytes_per_sector: u32,
}

impl TableScan {
    pub closed spec fn facts(&self) -> Seq<EntryFacts> {
        self.index.facts()
    }

    /// Bytes of a record not yet complete.
    pub closed spec fn pending(&self) -> Seq<u8> {
        self.pending@
    }

    /// The number the next whole record gets.
    pub closed spec fn next_number(&self) -> u64 {
        self.next_record
    }

    pub closed spec fn files(&self) -> u64 {
        self.files_seen
    }

    pub closed spec fn bytes(&self) -> u64 {
        self.bytes_seen
    }

    /// Where the read stands, as [`took`] describes it.
    pub open spec fn progress(&self) -> (Seq<EntryFacts>, Seq<u8>, int, int, int) {
        (self.facts(), self.pending(), self.next_number() as int, self.files() as int, self.bytes() as int)
    }

    pub closed spec fn record_bytes(&self) -> usize {
        self.record_size
    }

    pub closed spec fn sector_bytes(&self) -> u32 {
        self.bytes_per_sector
    }

    pub fn new(index: Index, record_size: usize, bytes_per_sector: u32) -> (t: TableScan)
        requires
            record_size > 0,
        ensures
            t.facts() == index.facts(),
            t.pending() == Seq::<u8>::empty(),
            t.next_number() == 0,
            t.files() == 0,
            t.bytes() == 0,
            t.record_bytes() == record_size,
            t.sector_bytes() == bytes_per_sector,
    {
        TableScan {
            index,
            pending: Vec::new(),
            next_record: 0,
            files_seen: 0,
            bytes_seen: 0,
            record_size,
            bytes_per_sector,
        }
    }

    /// A region of `len` bytes could not be read: it is skipped, and the
    /// record numbering stays aligned past it.
    pub fn skip(&mut self, len: usize)
        requires
            old(self).record_bytes() > 0,
            old(self).next_number() + len / old(self).record_bytes() <= u64::MAX,
        ensures
            final(self).next_number() == old(self).next_number() + len / old(self).record_bytes(),
            final(self).facts() == old(self).facts(),
            final(self).pending() == old(self).pending(),
            final(self).files() == old(self).files(),
            final(self).bytes() == old(self).bytes(),
            final(self).record_bytes() == old(self).record_bytes(),
            final(self).sector_bytes() == old(self).sector_bytes(),
    {
        self.next_record = self.next_record + (len / self.record_size) as u64;
    }

    /// Takes the next bytes read from the table.
    pub fn take(&mut self, bytes: &[u8])
        requires
            old(self).record_bytes() > 0,
            old(self).next_number() + old(self).pending().len() + bytes@.len() < usize::MAX,
            old(self).next_number() + old(self).pending().len() + bytes@.len() <= u64::MAX,
            old(self).files() + old(self).pending().len() + bytes@.len() <= u64::MAX,
            old(self).bytes() + old(self).pending().len() + bytes@.len() <= u64::MAX,
        ensures
            ({
                let all = old(self).pending() + bytes@;
                let rs = old(self).record_bytes() as int;
                let k = (all.len() as int) / rs;
                let whole = k * rs;
                let (e, files) = absorbed(old(self).facts(), all, old(self).next_number() as int, rs, old(self).sector_bytes(), k as nat);
                &&& final(self).facts() == e
                &&& final(self).files() == old(self).files() + files
                &&& final(self).bytes() == old(self).bytes() + whole
                &&& final(self).next_number() == old(self).next_number() + k
                &&& final(self).pending() == all.skip(whole)
            }),
            final(self).progress() == took(
                old(self).progress(),
                bytes@,
                old(self).record_bytes() as int,
                old(self).sector_bytes(),
            ),
            final(self).record_bytes() == old(self).record_bytes(),
            final(self).sector_bytes() == old(self).sector_bytes(),
    {
        let ghost p0 = self.pending@;
        let mut all: Vec<u8> = Vec::new();
        all.append(&mut self.pending);
        let mut more = vstd::slice::slice_to_vec(bytes);
        all.append(&mut more);
        proof {
            assert(all@ =~= p0 + bytes@);
        }
        let rs = self.record_size;
        let k = all.len() / rs;
        let ghost e0 = self.index.facts();
        let ghost f0 = self.files_seen;
        let ghost first = self.next_record as int;
        proof {
            vstd::arithmetic::div_mod::lemma_fundamental_div_mod(all@.len() as int, rs as int);
            vstd::arithmetic::div_mod::lemma_div_pos_is_pos(all@.len() as int, rs as int);
            vstd::arithmetic::div_mod::lemma_div_is_ordered_by_denominator(all@.len() as int, 1, rs as int);
        }
        let mut i: usize = 0;
        while i < k
            invariant
                rs == self.record_size,
                rs > 0,
                k == (all@.len() as int) / (rs as int),
                k * rs <= all@.len(),
                k <= all@.len(),
                i <= k,
                first == old(self).next_record as int,
                self.next_record == old(self).next_record,
                self.bytes_per_sector == old(self).bytes_per_sector,
                self.bytes_seen == old(self).bytes_seen,
                self.bytes_seen + all@.len() <= u64::MAX,
                self.next_record + all@.len() <= u64::MAX,
                all@ == old(self).pending@ + bytes@,
                first + all@.len() < usize::MAX,
                f0 == old(self).files_seen,
                f0 + all@.len() <= u64::MAX,
                ({
                    let (e, files) = absorbed(e0, all@, first, rs as int, self.bytes_per_sector, i as nat);
                    &&& self.index.facts() == e
                    &&& self.files_seen == f0 + files
                    &&& 0 <= files <= i
                }),
            decreases k - i,
        {
            proof {
                vstd::arithmetic::mul::lemma_mul_is_distributive_add_other_way(rs as int, i as int, 1);
                vstd::arithmetic::mul::lemma_mul_inequality(i + 1, k as int, rs as int);
                vstd::arithmetic::mul::lemma_mul_nonnegative(i as int, rs as int);
            }
            let from = i * rs;
            let to = from + rs;
            let mut rec = vstd::slice::slice_to_vec(vstd::slice::slice_subrange(all.as_slice(), from, to));
            let ghost before = rec@;
            proof {
                assert(before == all@.subrange((i + 1 - 1) * rs, (i + 1) * rs));
            }
            match decode_record(rec.as_mut_slice(), self.bytes_per_sector) {
                None => {},
                Some(parsed) => {
                    let number = self.next_record + i as u64;
                    let counted = self.index.merge(number, parsed);
                    if counted {
                        self.files_seen = self.files_seen + 1;
                    }
                },
            }
            i = i + 1;
        }
        let whole = k * rs;
        let mut rest = vstd::slice::slice_to_vec(vstd::slice::slice_subrange(all.as_slice(), whole, all.len()));
        self.pending = rest;
        self.bytes_seen = self.bytes_seen + whole as u64;
        self.next_record = self.next_record + k as u64;
        proof {
            assert(self.pending@ =~= all@.skip(whole as int));
        }
    }

    /// The number the next whole record gets.
    pub fn next_record(&self) -> (n: u64)
        ensures
            n == self.next_number(),
    {
        self.next_record
    }

    /// Bytes of a record not yet complete.
    pub fn pending_len(&self) -> (n: usize)
        ensures
            n == self.pending().len(),
    {
        self.pending.len()
    }

    /// Files counted so far, for progress reporting.
    pub fn files_seen(&self) -> (n: u64)
        ensures
            n == self.files(),
    {
        self.files_seen
    }

    /// Whole records taken so far, in bytes.
    pub fn bytes_seen(&self) -> (n: u64)
        ensures
            n == self.bytes(),
    {
        self.bytes_seen
    }

    /// The index built so far.
    pub fn into_index(self) -> (ix: Index)
        ensures
            ix.facts() == self.facts(),
    {
        self.index
    }
}

/// Whether the index can be rebuilt into a tree: few enough records for
/// node ids, and both size totals within `u64`.
pub open spec fn buildable(e: Seq<EntryFacts>) -> bool {
    &&& e.len() + 2 <= u32::MAX
    &&& total_vals(logical_sizes(e), e.len() as int) <= u64::MAX
    &&& total_vals(alloc_sizes(e), e.len() as int) <= u64::MAX
}

impl Index {
    /// Whether [`build_tree`] can take this index.
    pub fn is_buildable(&self) -> (b: bool)
        ensures
            b == buildable(self.facts()),
    {
        let ghost e = self.facts();
        let n = self.entries.len();
        if n > 0xffff_fffd {
            return false;
        }
        let mut logical: u128 = 0;
        let mut alloc: u128 = 0;
        let mut i: usize = 0;
        while i < n
            invariant
                i <= n == e.len(),
                e == entry_views(self.entries@),
                n <= 0xffff_fffd,
                logical == total_vals(logical_sizes(e), i as int),
                alloc == total_vals(alloc_sizes(e), i as int),
                logical <= i * 0xffff_ffff_ffff_ffffu128,
                alloc <= i * 0xffff_ffff_ffff_ffffu128,
            decreases n - i,
        {
            let ent = &self.entries[i];
            proof {
                assert(e[i as int] == self.entries@[i as int]@);
                assert((i + 1) * 0xffff_ffff_ffff_ffffu128 == i * 0xffff_ffff_ffff_ffffu128 + 0xffff_ffff_ffff_ffffu128) by (nonlinear_arith);
                assert(i * 0xffff_ffff_ffff_ffffu128 + 0xffff_ffff_ffff_ffffu128 <= 0x1_0000_0000u128 * 0xffff_ffff_ffff_ffffu128) by (nonlinear_arith)
                    requires i < 0x1_0000_0000u128;
            }
            logical = logical + ent.size_logical as u128;
            alloc = alloc + ent.size_alloc as u128;
            i = i + 1;
        }
        logical <= 0xffff_ffff_ffff_ffff && alloc <= 0xffff_ffff_ffff_ffff
    }
}

/// [`build_tree`] where the index allows it; `None` otherwise.
pub fn try_build_tree(index: &Index, drive_letter: char) -> (r: Option<(Tree, NodeId)>)
    ensures
        r is Some <==> buildable(index.facts()),
        r matches Some(p) ==> {
            &&& p.0.wf()
            &&& p.1 == 1
            &&& p.0.node_total() >= 2
            &&& p.0.name_at(1) == drive_name(drive_letter)
            &&& p.0.parent_at(1) == 0
            &&& exists|rec: Seq<int>| rebuilt_from(&p.0, index.facts(), rec)
        },
{
    if index.is_buildable() {
        Some(build_tree(index, drive_letter))
    } else {
        None
    }
}

} // verus!
