//! The launcher's volume list on Linux: the mount table, with virtual and
//! pseudo filesystems left out, one row per mount point. Reading
//! `/proc/mounts` and querying each mount's capacity is the
//! application's part.

use vstd::pervasive::VecAdditionalExecFns;
use vstd::prelude::*;
use vstd::string::StringExecFns;

use crate::dto::VolumeDto;
use crate::sort::{chars_lt, lemma_ranked_perm, rank_positions, ranked, TieBreak};
use crate::text::{chars_of, is_space, is_space_char, string_from_chars};
use crate::volume::{used_of, VolumeInfo};

verus! {

broadcast use vstd::string::group_string_axioms;

/// Filesystem types that are not storage anyone would scan.
pub open spec fn is_virtual_fs(t: Seq<char>) -> bool {
    t == "proc"@ || t == "sysfs"@ || t == "cgroup"@ || t == "cgroup2"@ || t == "devpts"@ || t
        == "tmpfs"@ || t == "devtmpfs"@ || t == "mqueue"@ || t == "debugfs"@ || t == "tracefs"@ || t
        == "securityfs"@ || t == "pstore"@ || t == "bpf"@ || t == "overlay"@ || t == "squashfs"@ || t
        == "autofs"@ || t == "hugetlbfs"@ || t == "binfmt_misc"@ || t == "configfs"@ || t
        == "fusectl"@ || t == "ramfs"@ || t == "nsfs"@ || t == "rpc_pipefs"@
}

fn same(a: &str, b: &str) -> (r: bool)
    ensures
        r == (a@ == b@),
{
    a.to_owned() == b.to_owned()
}

fn virtual_fs(t: &str) -> (b: bool)
    ensures
        b == is_virtual_fs(t@),
{
    same(t, "proc") || same(t, "sysfs") || same(t, "cgroup") || same(t, "cgroup2") || same(
        t,
        "devpts",
    ) || same(t, "tmpfs") || same(t, "devtmpfs") || same(t, "mqueue") || same(t, "debugfs")
        || same(t, "tracefs") || same(t, "securityfs") || same(t, "pstore") || same(t, "bpf")
        || same(t, "overlay") || same(t, "squashfs") || same(t, "autofs") || same(t, "hugetlbfs")
        || same(t, "binfmt_misc") || same(t, "configfs") || same(t, "fusectl") || same(t, "ramfs")
        || same(t, "nsfs") || same(t, "rpc_pipefs")
}

/// One line of the mount table: where, what and how it is mounted.
pub struct MountEntry {
    pub device: String,
    pub mount_point: String,
    pub fstype: String,
}

/// A finished word, if any characters were gathered.
pub open spec fn word(cur: Seq<char>) -> Seq<Seq<char>> {
    if cur.len() == 0 {
        Seq::empty()
    } else {
        seq![cur]
    }
}

/// The whitespace-separated words of `s`, the current word having
/// gathered `cur` so far (`str::split_whitespace`).
pub open spec fn words_from(s: Seq<char>, cur: Seq<char>) -> Seq<Seq<char>>
    decreases s.len(),
{
    if s.len() == 0 {
        word(cur)
    } else if is_space(s[0]) {
        word(cur) + words_from(s.drop_first(), Seq::empty())
    } else {
        words_from(s.drop_first(), cur.push(s[0]))
    }
}

/// What one line contributes: its first three words as device, mount
/// point and filesystem type, unless it has fewer or the type is virtual.
pub open spec fn line_entry(line: Seq<char>) -> Seq<(Seq<char>, Seq<char>, Seq<char>)> {
    let w = words_from(line, Seq::empty());
    if w.len() >= 3 && !is_virtual_fs(w[2]) {
        seq![(w[0], w[1], w[2])]
    } else {
        Seq::empty()
    }
}

/// The entries of the lines of `s`, the current line having gathered
/// `line` so far.
pub open spec fn entries_from(s: Seq<char>, line: Seq<char>) -> Seq<(Seq<char>, Seq<char>, Seq<char>)>
    decreases s.len(),
{
    if s.len() == 0 {
        line_entry(line)
    } else if s[0] == '\n' {
        line_entry(line) + entries_from(s.drop_first(), Seq::empty())
    } else {
        entries_from(s.drop_first(), line.push(s[0]))
    }
}

pub open spec fn entry_view(e: MountEntry) -> (Seq<char>, Seq<char>, Seq<char>) {
    (e.device@, e.mount_point@, e.fstype@)
}

/// The filesystem types that hold no storage anyone would scan: kernel
/// interfaces, memory-backed filesystems, overlays and read-only images.
pub open spec fn skipped_fs_types() -> Seq<Seq<char>> {
    seq![
        "proc"@, "sysfs"@, "cgroup"@, "cgroup2"@, "devpts"@, "tmpfs"@, "devtmpfs"@, "mqueue"@,
        "debugfs"@, "tracefs"@, "securityfs"@, "pstore"@, "bpf"@, "overlay"@, "squashfs"@,
        "autofs"@, "hugetlbfs"@, "binfmt_misc"@, "configfs"@, "fusectl"@, "ramfs"@, "nsfs"@,
        "rpc_pipefs"@,
    ]
}

proof fn lemma_skipped_is_virtual(t: Seq<char>)
    requires
        skipped_fs_types().contains(t),
    ensures
        is_virtual_fs(t),
{
    let s = skipped_fs_types();
    let i = choose|i: int| 0 <= i < s.len() && s[i] == t;
    assert(i == 0 || i == 1 || i == 2 || i == 3 || i == 4 || i == 5 || i == 6 || i == 7 || i == 8
        || i == 9 || i == 10 || i == 11 || i == 12 || i == 13 || i == 14 || i == 15 || i == 16 || i
        == 17 || i == 18 || i == 19 || i == 20 || i == 21 || i == 22);
}

/// No mount read from a table, whatever the table holds, has one of the
/// [`skipped_fs_types`].
pub proof fn law_mount_entries_skip_virtual_filesystems(s: Seq<char>, line: Seq<char>)
    ensures
        forall|k: int|
            0 <= k < entries_from(s, line).len() ==> !skipped_fs_types().contains(
                (#[trigger] entries_from(s, line)[k]).2,
            ),
    decreases s.len(),
{
    let a = line_entry(line);
    assert forall|k: int| 0 <= k < a.len() implies !skipped_fs_types().contains((#[trigger] a[k]).2) by {
        if skipped_fs_types().contains(a[k].2) {
            lemma_skipped_is_virtual(a[k].2);
        }
    }
    if s.len() == 0 {
        assert(entries_from(s, line) == a);
    } else {
        if s[0] == '\n' {
            let b = entries_from(s.drop_first(), Seq::empty());
            law_mount_entries_skip_virtual_filesystems(s.drop_first(), Seq::empty());
            assert(entries_from(s, line) == a + b);
            assert forall|k: int| 0 <= k < (a + b).len() implies !skipped_fs_types().contains(
                (#[trigger] (a + b)[k]).2,
            ) by {
                if k >= a.len() {
                    assert((a + b)[k] == b[k - a.len()]);
                }
            }
        } else {
            law_mount_entries_skip_virtual_filesystems(s.drop_first(), line.push(s[0]));
            assert(entries_from(s, line) == entries_from(s.drop_first(), line.push(s[0])));
        }
    }
}

/// The first three words of `line`, or as many as it has.
fn first_words(line: &[char]) -> (w: Vec<String>)
    ensures
        w@.len() == if words_from(line@, Seq::empty()).len() < 3 {
            words_from(line@, Seq::empty()).len()
        } else {
            3
        },
        forall|k: int| 0 <= k < w@.len() ==> (#[trigger] w@[k])@ == words_from(line@, Seq::empty())[k],
{
    let n = line.len();
    let mut w: Vec<String> = Vec::new();
    let mut start: usize = 0;
    let mut i: usize = 0;
    let ghost all = words_from(line@, Seq::empty());
    proof {
        assert(line@.subrange(0, n as int) =~= line@);
        assert(line@.subrange(0, 0) =~= Seq::<char>::empty());
    }
    while i < n
        invariant
            n == line@.len(),
            start <= i <= n,
            w@.len() <= 3,
            ({
                let done = w@.map_values(|x: String| x@);
                let rest = words_from(line@.subrange(i as int, n as int), line@.subrange(start as int, i as int));
                w@.len() < 3 ==> done + rest == all
            }),
            forall|k: int| 0 <= k < w@.len() ==> (#[trigger] w@[k])@ == all[k],
            w@.len() == 3 ==> all.len() >= 3,
        decreases n - i,
    {
        let ghost rest = line@.subrange(i as int, n as int);
        let ghost cur = line@.subrange(start as int, i as int);
        proof {
            assert(rest.drop_first() =~= line@.subrange(i + 1, n as int));
            assert(rest[0] == line@[i as int]);
        }
        if w.len() < 3 {
            let ghost done = w@.map_values(|x: String| x@);
            if is_space_char(line[i]) {
                if start < i {
                    let s = string_from_chars(line, start, i);
                    w.push(s);
                    proof {
                        let r2 = words_from(rest.drop_first(), Seq::empty());
                        assert(done + (seq![cur] + r2) =~= (done + seq![cur]) + r2);
                        assert(w@.map_values(|x: String| x@) =~= done + seq![cur]);
                        assert forall|k: int| 0 <= k < w@.len() implies (#[trigger] w@[k])@ == all[k] by {
                            assert((done + seq![cur] + r2)[k] == all[k]);
                            if k < done.len() {
                                assert(done[k] == w@[k]@);
                            }
                        }
                        if w@.len() == 3 {
                            assert((done + seq![cur] + r2).len() >= 3);
                        }
                    }
                } else {
                    proof {
                        assert(cur =~= Seq::<char>::empty());
                        assert(Seq::<Seq<char>>::empty() + words_from(rest.drop_first(), Seq::empty())
                            =~= words_from(rest.drop_first(), Seq::empty()));
                    }
                }
                start = i + 1;
                proof {
                    assert(line@.subrange(i + 1, i + 1) =~= Seq::<char>::empty());
                }
            } else {
                proof {
                    assert(cur.push(line@[i as int]) =~= line@.subrange(start as int, i + 1));
                }
            }
        }
        i = i + 1;
    }
    if w.len() < 3 && start < n {
        let ghost done = w@.map_values(|x: String| x@);
        let s = string_from_chars(line, start, n);
        w.push(s);
        proof {
            let cur = line@.subrange(start as int, n as int);
            assert(line@.subrange(n as int, n as int) =~= Seq::<char>::empty());
            assert(w@.map_values(|x: String| x@) =~= done + seq![cur]);
            assert(done + seq![cur] == all);
            assert forall|k: int| 0 <= k < w@.len() implies (#[trigger] w@[k])@ == all[k] by {
                if k < done.len() {
                    assert(done[k] == w@[k]@);
                }
            }
        }
    } else {
        proof {
            if w@.len() < 3 {
                assert(line@.subrange(n as int, n as int) =~= Seq::<char>::empty());
                assert(line@.subrange(start as int, n as int) =~= Seq::<char>::empty());
                assert(w@.map_values(|x: String| x@) + Seq::<Seq<char>>::empty() =~= w@.map_values(|x: String| x@));
                assert forall|k: int| 0 <= k < w@.len() implies (#[trigger] w@[k])@ == all[k] by {}
            }
        }
    }
    w
}

/// Appends the entry of the complete line `line`, if it has one.
fn push_line(out: &mut Vec<MountEntry>, line: &[char])
    ensures
        final(out)@.map_values(|e: MountEntry| entry_view(e)) == old(out)@.map_values(
            |e: MountEntry| entry_view(e),
        ) + line_entry(line@),
{
    let mut w = first_words(line);
    let ghost before = out@.map_values(|e: MountEntry| entry_view(e));
    if w.len() == 3 && !virtual_fs(w[2].as_str()) {
        let fstype = w.pop().unwrap();
        let mount_point = w.pop().unwrap();
        let device = w.pop().unwrap();
        out.push(MountEntry { device, mount_point, fstype });
        proof {
            assert(out@.map_values(|e: MountEntry| entry_view(e)) =~= before + line_entry(line@));
        }
    } else {
        proof {
            assert(line_entry(line@) =~= Seq::<(Seq<char>, Seq<char>, Seq<char>)>::empty());
            assert(out@.map_values(|e: MountEntry| entry_view(e)) =~= before + line_entry(line@));
        }
    }
}

/// The storage mounts listed in a mount table (as `/proc/mounts` reads),
/// in table order.
pub fn mount_entries(content: &str) -> (out: Vec<MountEntry>)
    ensures
        out@.map_values(|e: MountEntry| entry_view(e)) == entries_from(content@, Seq::empty()),
        forall|k: int| 0 <= k < out@.len() ==> !skipped_fs_types().contains((#[trigger] out@[k]).fstype@),
{
    let cs = chars_of(content);
    let n = cs.len();
    let mut out: Vec<MountEntry> = Vec::new();
    let mut start: usize = 0;
    let mut i: usize = 0;
    proof {
        assert(cs@.subrange(0, n as int) =~= cs@);
        assert(cs@.subrange(0, 0) =~= Seq::<char>::empty());
        assert(out@.map_values(|e: MountEntry| entry_view(e)) =~= Seq::<(Seq<char>, Seq<char>, Seq<char>)>::empty());
    }
    while i < n
        invariant
            n == cs@.len(),
            cs@ == content@,
            start <= i <= n,
            out@.map_values(|e: MountEntry| entry_view(e)) + entries_from(
                cs@.subrange(i as int, n as int),
                cs@.subrange(start as int, i as int),
            ) == entries_from(content@, Seq::empty()),
        decreases n - i,
    {
        let ghost rest = cs@.subrange(i as int, n as int);
        let ghost cur = cs@.subrange(start as int, i as int);
        proof {
            assert(rest.drop_first() =~= cs@.subrange(i + 1, n as int));
            assert(rest[0] == cs@[i as int]);
        }
        if cs[i] == '\n' {
            let ghost before = out@.map_values(|e: MountEntry| entry_view(e));
            let line = vstd::slice::slice_subrange(cs.as_slice(), start, i);
            push_line(&mut out, line);
            proof {
                let r2 = entries_from(rest.drop_first(), Seq::empty());
                assert(before + (line_entry(cur) + r2) =~= (before + line_entry(cur)) + r2);
                assert(cs@.subrange(i + 1, i + 1) =~= Seq::<char>::empty());
            }
            start = i + 1;
        } else {
            proof {
                assert(cur.push(cs@[i as int]) =~= cs@.subrange(start as int, i + 1));
            }
        }
        i = i + 1;
    }
    let ghost before = out@.map_values(|e: MountEntry| entry_view(e));
    let line = vstd::slice::slice_subrange(cs.as_slice(), start, n);
    push_line(&mut out, line);
    proof {
        assert(cs@.subrange(n as int, n as int) =~= Seq::<char>::empty());
        let ev = out@.map_values(|e: MountEntry| entry_view(e));
        law_mount_entries_skip_virtual_filesystems(content@, Seq::empty());
        assert forall|k: int| 0 <= k < out@.len() implies !skipped_fs_types().contains(
            (#[trigger] out@[k]).fstype@,
        ) by {
            assert(ev[k] == entry_view(out@[k]));
        }
    }
    out
}

/// The row a mount gets once its capacity is known: none for a volume
/// reporting no size; the root mount is labelled by its device, any
/// other by its mount point.
pub fn volume_row(entry: &MountEntry, info: &VolumeInfo) -> (r: Option<VolumeDto>)
    ensures
        info.total_bytes == 0 <==> r is None,
        r matches Some(d) ==> {
            &&& d.path@ == entry.mount_point@
            &&& d.label@ == if entry.mount_point@ == "/"@ {
                entry.device@
            } else {
                entry.mount_point@
            }
            &&& d.filesystem@ == entry.fstype@
            &&& d.total_bytes == info.total_bytes
            &&& d.used_bytes == used_of(info.total_bytes, info.free_bytes)
            &&& d.free_bytes == info.free_bytes
        },
{
    if info.total_bytes == 0 {
        return None;
    }
    let label = if same(entry.mount_point.as_str(), "/") {
        entry.device.clone()
    } else {
        entry.mount_point.clone()
    };
    let mut dto = VolumeDto::new(entry.mount_point.clone(), label, info);
    dto.filesystem = entry.fstype.clone();
    Some(dto)
}

/// `rows` ordered by path, each path once (the first row of a run of
/// equal paths stays).
pub open spec fn by_path(rows: Seq<Seq<char>>) -> Seq<int> {
    ranked(rows.len() as int, Seq::new(rows.len(), |i: int| 0u64), Seq::empty(), rows, TieBreak::NameAsc)
}

/// Positions of `order` kept when consecutive equal paths collapse.
pub open spec fn kept_first(rows: Seq<Seq<char>>, order: Seq<int>) -> Seq<int>
    decreases order.len(),
{
    if order.len() == 0 {
        Seq::empty()
    } else {
        let rest = kept_first(rows, order.drop_last());
        if order.len() >= 2 && rows[order[order.len() - 2]] == rows[order.last()] {
            rest
        } else {
            rest.push(order.last())
        }
    }
}

/// The rows sorted by path, with repeated paths collapsed to one.
pub fn sorted_by_path(rows: Vec<VolumeDto>) -> (out: Vec<VolumeDto>)
    ensures
        ({
            let paths = rows@.map_values(|d: VolumeDto| d.path@);
            let keep = kept_first(paths, by_path(paths));
            &&& out@.len() == keep.len()
            &&& forall|k: int| 0 <= k < keep.len() ==> #[trigger] out@[k] == rows@[keep[k]]
        }),
{
    let n = rows.len();
    let ghost paths = rows@.map_values(|d: VolumeDto| d.path@);
    let mut names: Vec<Vec<char>> = Vec::new();
    let mut zeros: Vec<u64> = Vec::new();
    let mut i: usize = 0;
    while i < n
        invariant
            i <= n == rows@.len(),
            paths == rows@.map_values(|d: VolumeDto| d.path@),
            names@.len() == i,
            zeros@.len() == i,
            forall|k: int| 0 <= k < i ==> (#[trigger] names@[k])@ == paths[k],
            forall|k: int| 0 <= k < i ==> #[trigger] zeros@[k] == 0,
        decreases n - i,
    {
        names.push(chars_of(rows[i].path.as_str()));
        zeros.push(0);
        i = i + 1;
    }
    let empty: Vec<u64> = Vec::new();
    let order = rank_positions(zeros.as_slice(), empty.as_slice(), &names, TieBreak::NameAsc);
    proof {
        assert(names@.map_values(|v: Vec<char>| v@) =~= paths);
        assert(zeros@ =~= Seq::new(n as nat, |i: int| 0u64));
        lemma_ranked_perm(n as int, zeros@, empty@, paths, TieBreak::NameAsc);
    }
    let ghost ord = order@.map_values(|p: usize| p as int);
    let mut slots: Vec<Option<VolumeDto>> = Vec::new();
    let mut rows = rows;
    let ghost orig = rows@;
    // Move the rows out into slots so each can be taken once.
    while rows.len() > 0
        invariant
            rows@.len() + slots@.len() == n,
            n == orig.len(),
            forall|k: int| 0 <= k < rows@.len() ==> rows@[k] == orig[k],
            forall|k: int| 0 <= k < slots@.len() ==> slots@[k] == Some(orig[n - 1 - k]),
        decreases rows@.len(),
    {
        let r = rows.pop().unwrap();
        slots.push(Some(r));
    }
    let mut out: Vec<VolumeDto> = Vec::new();
    let ghost mut keep: Seq<int> = Seq::empty();
    let mut j: usize = 0;
    while j < n
        invariant
            j <= n == orig.len() == order@.len(),
            ord == order@.map_values(|p: usize| p as int),
            ord == by_path(paths),
            paths == orig.map_values(|d: VolumeDto| d.path@),
            ord.no_duplicates(),
            forall|k: int| 0 <= k < n ==> #[trigger] order@[k] < n,
            names@.len() == n,
            forall|k: int| 0 <= k < n ==> (#[trigger] names@[k])@ == paths[k],
            slots@.len() == n,
            forall|k: int| 0 <= k < n ==> (slots@[k] is Some ==> slots@[k] == Some(orig[n - 1 - k])),
            forall|k: int| j <= k < n ==> #[trigger] slots@[n - 1 - ord[k]] is Some,
            keep == kept_first(paths, ord.take(j as int)),
            out@.len() == keep.len(),
            forall|k: int| 0 <= k < keep.len() ==> #[trigger] out@[k] == orig[keep[k]],
        decreases n - j,
    {
        let p = order[j];
        proof {
            assert(ord[j as int] == p as int);
            assert(ord.take(j + 1).drop_last() =~= ord.take(j as int));
            assert(ord.take(j + 1).last() == p as int);
        }
        let dup = if j >= 1 {
            let q = order[j - 1];
            proof {
                assert(ord[j - 1] == q as int);
                assert(ord.take(j + 1)[ord.take(j + 1).len() - 2] == q as int);
            }
            vec_eq(&names[q], &names[p])
        } else {
            false
        };
        let mut taken: Option<VolumeDto> = None;
        let slot = n - 1 - p;
        slots.set_and_swap(slot, &mut taken);
        proof {
            assert forall|k: int| j + 1 <= k < n implies #[trigger] slots@[n - 1 - ord[k]] is Some by {
                assert(ord[k] != ord[j as int]);
            }
        }
        if !dup {
            let r = taken.unwrap();
            let ghost before = out@;
            out.push(r);
            proof {
                keep = keep.push(p as int);
                assert forall|k: int| 0 <= k < keep.len() implies #[trigger] out@[k] == orig[keep[k]] by {
                    if k < before.len() {
                        assert(out@[k] == before[k]);
                    }
                }
            }
        }
        j = j + 1;
    }
    proof {
        assert(ord.take(n as int) =~= ord);
    }
    out
}

fn vec_eq(a: &Vec<char>, b: &Vec<char>) -> (r: bool)
    ensures
        r == (a@ == b@),
{
    if a.len() != b.len() {
        return false;
    }
    let mut i: usize = 0;
    while i < a.len()
        invariant
            a@.len() == b@.len(),
            i <= a@.len(),
            forall|k: int| 0 <= k < i ==> a@[k] == b@[k],
        decreases a@.len() - i,
    {
        if a[i] != b[i] {
            return false;
        }
        i = i + 1;
    }
    proof {
        assert(a@ =~= b@);
    }
    true
}

} // verus!
