//! The portable directory walker's decisions: what each listed entry
//! contributes to the tree, and how one directory's listing is added to
//! it. Listing directories, spreading them over threads and timing the
//! scan is the application's part.
//!
//! Tree construction stays single-threaded — a directory's `NodeId` must
//! exist before its children can be pushed with that id as their parent —
//! so workers hand raw listings to one collector, which pushes them with
//! [`collect`] and dispatches a worker per subdirectory it just assigned
//! an id.

use vstd::prelude::*;

use crate::flags::NodeFlags;
use crate::ntfs::record::{string_from_utf16_lossy, utf16_lossy};
use crate::ntfs::{filetime_to_unix_secs, unix_secs_of};
use crate::tree::{kept_name, NodeId, RawNode, TreeBuilder};

verus! {

/// One directory entry, with everything the walker needs already read.
pub struct RawDirEntry {
    pub name: String,
    pub is_dir: bool,
    pub is_symlink: bool,
    pub size_logical: u64,
    pub size_alloc: u64,
    pub mtime: i64,
    /// `(device, inode)` for a file with more than one link, so its bytes
    /// can be counted once.
    pub hardlink_key: Option<(u64, u64)>,
}

/// What one listed entry becomes.
pub struct Entry {
    pub name: String,
    pub size_logical: u64,
    pub size_alloc: u64,
    pub mtime: i64,
    pub flags: NodeFlags,
    /// A real directory the collector should dispatch a worker for;
    /// symlinks are recorded but never traversed.
    pub recurse: bool,
}

/// The flags an entry gets: a directory, a reparse point, and a hard
/// link already counted at another path.
pub open spec fn entry_flags(d: RawDirEntry, dup: bool) -> u16 {
    (if d.is_dir {
        1u16
    } else {
        0u16
    }) | (if d.is_symlink {
        2u16
    } else {
        0u16
    }) | (if dup {
        4u16
    } else {
        0u16
    })
}

/// Whether the entry repeats a hard link counted before: it has a key,
/// and the set of keys seen so far already held it.
pub open spec fn is_dup(d: RawDirEntry, already_seen: bool) -> bool {
    d.hardlink_key is Some && already_seen
}

/// Builds the entry for `d`. Symlinks and directories carry no bytes of
/// their own, and neither does a hard link already counted at its
/// first-seen path; `already_seen` says whether the set of `(device,
/// inode)` keys counted so far held `d`'s key.
pub fn entry_of(d: RawDirEntry, already_seen: bool) -> (e: Entry)
    ensures
        e.name@ == d.name@,
        e.flags.0 == entry_flags(d, is_dup(d, already_seen)),
        e.size_logical == if d.is_symlink || d.is_dir || is_dup(d, already_seen) {
            0
        } else {
            d.size_logical
        },
        e.size_alloc == if d.is_symlink || d.is_dir || is_dup(d, already_seen) {
            0
        } else {
            d.size_alloc
        },
        e.mtime == d.mtime,
        e.recurse == (d.is_dir && !d.is_symlink),
{
    let dup = d.hardlink_key.is_some() && already_seen;
    let dir_bit: u16 = if d.is_dir {
        1
    } else {
        0
    };
    let link_bit: u16 = if d.is_symlink {
        2
    } else {
        0
    };
    let dup_bit: u16 = if dup {
        4
    } else {
        0
    };
    let flags = NodeFlags(dir_bit | link_bit | dup_bit);
    let (size_logical, size_alloc) = if d.is_symlink || d.is_dir || dup {
        (0, 0)
    } else {
        (d.size_logical, d.size_alloc)
    };
    Entry {
        name: d.name,
        size_logical,
        size_alloc,
        mtime: d.mtime,
        flags,
        recurse: d.is_dir && !d.is_symlink,
    }
}

/// Whether an entry counts toward the files seen so far (directories do
/// not), for progress reporting.
pub fn counts_as_file(d: &RawDirEntry) -> (b: bool)
    ensures
        b == !d.is_dir,
{
    !d.is_dir
}

/// The ids pushed for the entries of `entries` the walk recurses into,
/// the first entry getting id `first`.
pub open spec fn recurse_ids(entries: Seq<Entry>, first: int) -> Seq<NodeId>
    decreases entries.len(),
{
    if entries.len() == 0 {
        Seq::empty()
    } else {
        let rest = recurse_ids(entries.drop_last(), first);
        if entries.last().recurse {
            rest.push((first + entries.len() - 1) as NodeId)
        } else {
            rest
        }
    }
}

/// Adds one directory's listing under `parent`: the directory is marked
/// unreadable when its listing failed, then every entry is pushed in
/// order. Returns the ids of the pushed subdirectories to walk next.
pub fn collect(builder: &mut TreeBuilder, parent: NodeId, entries: Vec<Entry>, access_denied: bool) -> (ids: Vec<NodeId>)
    requires
        parent < old(builder).records().len(),
        old(builder).records().len() + entries@.len() < u32::MAX,
    ensures
        final(builder).records().len() == old(builder).records().len() + entries@.len(),
        forall|i: int|
            0 <= i < old(builder).records().len() && (i != parent || !access_denied) ==> #[trigger] final(builder).records()[i] == old(builder).records()[i],
        access_denied ==> {
            let (a, b) = (final(builder).records()[parent as int], old(builder).records()[parent as int]);
            &&& a.parent == b.parent
            &&& a.name == b.name
            &&& a.size_logical == b.size_logical
            &&& a.size_alloc == b.size_alloc
            &&& a.mtime == b.mtime
            &&& a.flags.0 == b.flags.0 | 64
        },
        forall|k: int|
            0 <= k < entries@.len() ==> {
                let r = #[trigger] final(builder).records()[old(builder).records().len() + k];
                &&& r.parent == parent
                &&& kept_name(entries@[k].name@, r.name@)
                &&& r.size_logical == entries@[k].size_logical
                &&& r.size_alloc == entries@[k].size_alloc
                &&& r.mtime == entries@[k].mtime
                &&& r.flags == entries@[k].flags
            },
        ids@ == recurse_ids(entries@, old(builder).records().len() as int),
{
    if access_denied {
        builder.mark(parent, NodeFlags::access_denied());
    }
    let ghost marked = builder.records();
    let ghost n0 = old(builder).records().len();
    let ghost es = entries@;
    let mut ids: Vec<NodeId> = Vec::new();
    let mut rest = entries;
    let mut pending: Vec<Entry> = Vec::new();
    while rest.len() > 0
        invariant
            rest@.len() + pending@.len() == es.len(),
            forall|j: int| 0 <= j < rest@.len() ==> rest@[j] == es[j],
            forall|j: int| 0 <= j < pending@.len() ==> pending@[j] == es[es.len() - 1 - j],
        decreases rest@.len(),
    {
        let e = rest.pop().unwrap();
        pending.push(e);
    }
    let mut k: usize = 0;
    proof {
        assert(es.take(0) =~= Seq::<Entry>::empty());
    }
    while pending.len() > 0
        invariant
            pending@.len() + k == es.len(),
            forall|j: int| 0 <= j < pending@.len() ==> pending@[j] == es[es.len() - 1 - j],
            n0 + es.len() < u32::MAX,
            builder.records().len() == n0 + k,
            marked.len() == n0,
            parent < n0,
            forall|i: int| 0 <= i < n0 ==> #[trigger] builder.records()[i] == marked[i],
            forall|j: int|
                0 <= j < k ==> {
                    let r = #[trigger] builder.records()[n0 + j];
                    &&& r.parent == parent
                    &&& kept_name(es[j].name@, r.name@)
                    &&& r.size_logical == es[j].size_logical
                    &&& r.size_alloc == es[j].size_alloc
                    &&& r.mtime == es[j].mtime
                    &&& r.flags == es[j].flags
                },
            ids@ == recurse_ids(es.take(k as int), n0 as int),
        decreases pending@.len(),
    {
        let e = pending.pop().unwrap();
        proof {
            assert(e == es[k as int]);
        }
        let recurse = e.recurse;
        let ghost before = builder.records();
        let id = builder.push(
            RawNode {
                parent,
                name: e.name,
                size_logical: e.size_logical,
                size_alloc: e.size_alloc,
                mtime: e.mtime,
                flags: e.flags,
            },
        );
        if recurse {
            ids.push(id);
        }
        proof {
            assert(es.take(k + 1).drop_last() =~= es.take(k as int));
            assert(es.take(k + 1).last() == es[k as int]);
            assert forall|j: int| 0 <= j < k + 1 implies {
                let r = #[trigger] builder.records()[n0 + j];
                &&& r.parent == parent
                &&& kept_name(es[j].name@, r.name@)
                &&& r.size_logical == es[j].size_logical
                &&& r.size_alloc == es[j].size_alloc
                &&& r.mtime == es[j].mtime
                &&& r.flags == es[j].flags
            } by {
                if j < k {
                    assert(builder.records()[n0 + j] == before[n0 + j]);
                }
            }
        }
        k = k + 1;
    }
    proof {
        assert(es.take(k as int) =~= es);
    }
    ids
}

/// `FILE_ATTRIBUTE_DIRECTORY`.
pub const ATTR_DIRECTORY: u32 = 0x10;

/// `FILE_ATTRIBUTE_REPARSE_POINT`: junctions, symlinks and cloud
/// placeholders alike.
pub const ATTR_REPARSE_POINT: u32 = 0x400;

/// Where a NUL-terminated wide name ends: at its first NUL, or at the end
/// of the buffer when it has none.
pub open spec fn name_end(buf: Seq<u16>) -> int
    decreases buf.len(),
{
    if buf.len() == 0 || buf[0] == 0 {
        0
    } else {
        1 + name_end(buf.drop_first())
    }
}

proof fn lemma_name_end(buf: Seq<u16>)
    ensures
        0 <= name_end(buf) <= buf.len(),
        name_end(buf) < buf.len() ==> buf[name_end(buf)] == 0,
        forall|k: int| 0 <= k < name_end(buf) ==> buf[k] != 0,
    decreases buf.len(),
{
    if buf.len() > 0 && buf[0] != 0 {
        lemma_name_end(buf.drop_first());
        assert forall|k: int| 0 <= k < name_end(buf) implies buf[k] != 0 by {
            if k > 0 {
                assert(buf[k] == buf.drop_first()[k - 1]);
            }
        }
    }
}

/// The name a directory-search result carries: its wide name up to the
/// first NUL, decoded.
pub open spec fn found_name(buf: Seq<u16>) -> Seq<char> {
    utf16_lossy(buf.take(name_end(buf)))
}

/// The size a directory-search result reports, from its two halves.
pub open spec fn joined(high: u32, low: u32) -> u64 {
    (high * 0x1_0000_0000 + low) as u64
}

/// What one directory-search result (name buffer, attributes, size
/// halves, last-write time halves) lists: nothing for a nameless result
/// or for `.` and `..`; otherwise an entry whose directory and link flags
/// come from the attributes, carrying no bytes when it is either, its
/// allocated size taken to be its size (the search reports none), and no
/// hard-link key.
pub fn found_entry(
    file_name: &[u16],
    attrs: u32,
    size_high: u32,
    size_low: u32,
    write_high: u32,
    write_low: u32,
) -> (r: Option<RawDirEntry>)
    ensures
        r is None <==> (name_end(file_name@) == 0 || found_name(file_name@) == "."@ || found_name(
            file_name@,
        ) == ".."@),
        r matches Some(e) ==> {
            &&& e.name@ == found_name(file_name@)
            &&& e.is_dir == (attrs & ATTR_DIRECTORY != 0)
            &&& e.is_symlink == (attrs & ATTR_REPARSE_POINT != 0)
            &&& e.size_logical == if e.is_dir || e.is_symlink {
                0
            } else {
                joined(size_high, size_low)
            }
            &&& e.size_alloc == e.size_logical
            &&& e.mtime == unix_secs_of(joined(write_high, write_low))
            &&& e.hardlink_key is None
        },
{
    proof {
        lemma_name_end(file_name@);
    }
    let mut end: usize = 0;
    while end < file_name.len() && file_name[end] != 0
        invariant
            end <= file_name@.len(),
            forall|k: int| 0 <= k < end ==> file_name@[k] != 0,
            0 <= name_end(file_name@) <= file_name@.len(),
            name_end(file_name@) < file_name@.len() ==> file_name@[name_end(file_name@)] == 0,
            forall|k: int| 0 <= k < name_end(file_name@) ==> file_name@[k] != 0,
            end <= name_end(file_name@),
        decreases file_name@.len() - end,
    {
        end = end + 1;
    }
    if end == 0 {
        return None;
    }
    let units = vstd::slice::slice_subrange(file_name, 0, end);
    proof {
        assert(units@ =~= file_name@.take(name_end(file_name@)));
    }
    let name = string_from_utf16_lossy(units);
    if name == String::from_str(".") || name == String::from_str("..") {
        return None;
    }
    let is_dir = attrs & ATTR_DIRECTORY != 0;
    let is_symlink = attrs & ATTR_REPARSE_POINT != 0;
    let size = (size_high as u64) * 0x1_0000_0000 + size_low as u64;
    let size_logical = if is_dir || is_symlink {
        0
    } else {
        size
    };
    let written = (write_high as u64) * 0x1_0000_0000 + write_low as u64;
    Some(
        RawDirEntry {
            name,
            is_dir,
            is_symlink,
            size_logical,
            size_alloc: size_logical,
            mtime: filetime_to_unix_secs(written),
            hardlink_key: None,
        },
    )
}

} // verus!
