//! Which engine a path can use, and how drives are named in the volume
//! list. Asking the operating system about a drive is the application's
//! part; these decide from its answers.

use vstd::prelude::*;
use vstd::string::StringExecFns;

use crate::dto::VolumeDto;
use crate::text::{chars_of, push_char};
use crate::volume::{used_of, VolumeInfo};

verus! {

broadcast use vstd::string::group_string_axioms;

pub open spec fn is_ascii_letter(c: char) -> bool {
    ('a' <= c <= 'z') || ('A' <= c <= 'Z')
}

/// The drive letter when `path` names a whole volume: `C:`, `C:\` or
/// `C:/`. Anything deeper is a folder, which only the directory walker
/// scans.
pub open spec fn volume_letter_of(path: Seq<char>) -> Option<char> {
    if (path.len() == 2 || path.len() == 3) && is_ascii_letter(path[0]) && path[1] == ':' && (
    path.len() == 2 || path[2] == '\\' || path[2] == '/') {
        Some(path[0])
    } else {
        None
    }
}

pub fn whole_volume_letter(path: &str) -> (r: Option<char>)
    ensures
        r == volume_letter_of(path@),
{
    let cs = chars_of(path);
    let n = cs.len();
    if n != 2 && n != 3 {
        return None;
    }
    let c = cs[0];
    let letter = ('a' <= c && c <= 'z') || ('A' <= c && c <= 'Z');
    if !letter || cs[1] != ':' {
        return None;
    }
    if n == 3 && cs[2] != '\\' && cs[2] != '/' {
        return None;
    }
    Some(c)
}

pub open spec fn ascii_lower(c: char) -> char {
    if 'A' <= c <= 'Z' {
        ((c as u32) + 32) as char
    } else {
        c
    }
}

/// Whether a filesystem's name reads `NTFS`, in any ASCII case.
pub open spec fn names_ntfs_spec(name: Seq<char>) -> bool {
    name.len() == 4 && ascii_lower(name[0]) == 'n' && ascii_lower(name[1]) == 't' && ascii_lower(
        name[2],
    ) == 'f' && ascii_lower(name[3]) == 's'
}

fn lower(c: char) -> (r: char)
    ensures
        r == ascii_lower(c),
{
    if 'A' <= c && c <= 'Z' {
        ((c as u8) + 32) as char
    } else {
        c
    }
}

pub fn names_ntfs(name: &str) -> (b: bool)
    ensures
        b == names_ntfs_spec(name@),
{
    let cs = chars_of(name);
    cs.len() == 4 && lower(cs[0]) == 'n' && lower(cs[1]) == 't' && lower(cs[2]) == 'f' && lower(
        cs[3],
    ) == 's'
}

/// How a drive is labelled in the volume list: `X:` for an unlabelled
/// volume, otherwise `label (X:)`, so the letter always appears.
pub open spec fn drive_label_text(label: Seq<char>, letter: char) -> Seq<char> {
    if label.len() == 0 {
        seq![letter, ':']
    } else {
        label + seq![' ', '(', letter, ':', ')']
    }
}

pub fn drive_label(label: &str, letter: char) -> (s: String)
    ensures
        s@ == drive_label_text(label@, letter),
{
    let mut s = String::new();
    if label.is_empty() {
        push_char(&mut s, letter);
        push_char(&mut s, ':');
    } else {
        s.append(label);
        push_char(&mut s, ' ');
        push_char(&mut s, '(');
        push_char(&mut s, letter);
        push_char(&mut s, ':');
        push_char(&mut s, ')');
    }
    proof {
        assert(s@ =~= drive_label_text(label@, letter));
    }
    s
}

/// The UTF-16 prefix `\\?\` that lifts the 260-character path limit.
pub open spec fn long_path_prefix() -> Seq<u16> {
    seq![92u16, 92u16, 63u16, 92u16]
}

/// Whether a wide path already carries the long-path prefix.
pub open spec fn is_extended(w: Seq<u16>) -> bool {
    w.len() >= 4 && w.take(4) == long_path_prefix()
}

/// Whether a wide path is a plain absolute drive path, `X:\...`, its first
/// unit read as an ASCII letter by its low byte.
pub open spec fn is_drive_absolute(w: Seq<u16>) -> bool {
    &&& w.len() >= 3
    &&& ({
        let b = w[0] % 256;
        (65 <= b <= 90) || (97 <= b <= 122)
    })
    &&& w[1] == 58
    &&& w[2] == 92
}

/// The path handed to the directory-listing calls: a plain absolute drive
/// path gets the long-path prefix; one that already has it, or any other
/// form, is left alone rather than risking a malformed prefix.
pub open spec fn extended_path_spec(w: Seq<u16>) -> Seq<u16> {
    if is_extended(w) || !is_drive_absolute(w) {
        w
    } else {
        long_path_prefix() + w
    }
}

pub fn extended_path(wide: &[u16]) -> (out: Vec<u16>)
    ensures
        out@ == extended_path_spec(wide@),
{
    let n = wide.len();
    let already = n >= 4 && wide[0] == 92 && wide[1] == 92 && wide[2] == 63 && wide[3] == 92;
    let drive = n >= 3 && ({
        let b = wide[0] % 256;
        (65 <= b && b <= 90) || (97 <= b && b <= 122)
    }) && wide[1] == 58 && wide[2] == 92;
    proof {
        if n >= 4 {
            if already {
                assert(wide@.take(4) =~= long_path_prefix());
            } else {
                assert(wide@.take(4)[0] == wide@[0]);
                assert(wide@.take(4)[1] == wide@[1]);
                assert(wide@.take(4)[2] == wide@[2]);
                assert(wide@.take(4)[3] == wide@[3]);
            }
        }
    }
    let mut out: Vec<u16> = Vec::new();
    if !already && drive {
        out.push(92);
        out.push(92);
        out.push(63);
        out.push(92);
    }
    let ghost start = out@;
    let mut i: usize = 0;
    while i < n
        invariant
            n == wide@.len(),
            i <= n,
            out@ == start + wide@.take(i as int),
        decreases n - i,
    {
        out.push(wide[i]);
        proof {
            assert(wide@.take(i + 1) =~= wide@.take(i as int).push(wide@[i as int]));
        }
        i = i + 1;
    }
    proof {
        assert(wide@.take(n as int) =~= wide@);
        if !already && drive {
            assert(start =~= long_path_prefix());
        } else {
            assert(start =~= Seq::<u16>::empty());
        }
    }
    out
}

/// The NUL-terminated search pattern that lists the folder `w`: its
/// long-path form, a separator unless it already ends in one, then `*`.
pub open spec fn search_pattern_spec(w: Seq<u16>) -> Seq<u16> {
    let e = extended_path_spec(w);
    let dir = if e.len() > 0 && e.last() == 92 {
        e
    } else {
        e.push(92)
    };
    dir.push(42).push(0)
}

pub fn search_pattern(wide: &[u16]) -> (p: Vec<u16>)
    ensures
        p@ == search_pattern_spec(wide@),
{
    let mut p = extended_path(wide);
    let n = p.len();
    if n == 0 || p[n - 1] != 92 {
        p.push(92);
    }
    p.push(42);
    p.push(0);
    p
}

/// What a request to relaunch elevated came to, from the shell's return
/// code: above 32 it started, `5` means the user declined the prompt.
#[derive(Clone, Copy, Debug, PartialEq, Eq, Structural)]
pub enum Relaunch {
    Started,
    Declined,
    Failed,
}

pub fn relaunch_outcome(code: i64) -> (r: Relaunch)
    ensures
        (r is Started) == (code > 32),
        (r is Declined) == (code == 5),
        (r is Failed) == (code <= 32 && code != 5),
{
    if code > 32 {
        Relaunch::Started
    } else if code == 5 {
        Relaunch::Declined
    } else {
        Relaunch::Failed
    }
}

/// Every drive type but `DRIVE_REMOTE`: a network drive is not something
/// to start a whole-drive scan against by accident. A drive with no media
/// (an empty card reader or optical drive) is left out by its zero
/// capacity instead, see [`drive_entry`].
pub open spec fn listable_drive_type_spec(t: u32) -> bool {
    t != 4
}

pub fn listable_drive_type(drive_type: u32) -> (b: bool)
    ensures
        b == listable_drive_type_spec(drive_type),
{
    drive_type != 4
}

/// One mounted volume, ready for the launcher to list.
pub struct VolumeEntry {
    /// The path a scan should be started against, e.g. `C:\`.
    pub path: String,
    pub info: VolumeInfo,
}

/// The cluster size from sectors per cluster and bytes per sector, when
/// the system reported them, saturating; 0 when it did not.
pub open spec fn cluster_of(geometry: Option<(u32, u32)>) -> u32 {
    match geometry {
        Some((spc, bps)) => if spc * bps > u32::MAX {
            u32::MAX
        } else {
            (spc * bps) as u32
        },
        None => 0,
    }
}

/// The launcher's entry for drive `letter`, from what the system said of
/// it: none when it reports no capacity (no media); otherwise rooted at
/// `X:\`, labelled so the letter always shows, with the free space this
/// user can write.
pub fn drive_entry(
    letter: char,
    volume_label: &str,
    filesystem: String,
    total_bytes: u64,
    free_to_caller: u64,
    geometry: Option<(u32, u32)>,
) -> (r: Option<VolumeEntry>)
    ensures
        r is None <==> total_bytes == 0,
        r matches Some(e) ==> {
            &&& e.path@ == seq![letter, ':', '\\']
            &&& e.info.label@ == drive_label_text(volume_label@, letter)
            &&& e.info.filesystem@ == filesystem@
            &&& e.info.total_bytes == total_bytes
            &&& e.info.free_bytes == free_to_caller
            &&& e.info.cluster_bytes == cluster_of(geometry)
        },
{
    if total_bytes == 0 {
        return None;
    }
    let mut path = String::new();
    push_char(&mut path, letter);
    push_char(&mut path, ':');
    push_char(&mut path, '\\');
    let cluster_bytes = match geometry {
        Some((spc, bps)) => {
            assert((spc as int) * (bps as int) <= 0xffff_ffff * 0xffff_ffff) by (nonlinear_arith)
                requires
                    spc <= 0xffff_ffff,
                    bps <= 0xffff_ffff,
            ;
            let product = (spc as u64) * (bps as u64);
            if product > 0xffff_ffff {
                0xffff_ffffu32
            } else {
                product as u32
            }
        },
        None => 0,
    };
    proof {
        assert(path@ =~= seq![letter, ':', '\\']);
    }
    Some(
        VolumeEntry {
            path,
            info: VolumeInfo {
                label: drive_label(volume_label, letter),
                filesystem,
                total_bytes,
                free_bytes: free_to_caller,
                cluster_bytes,
            },
        },
    )
}

impl VolumeEntry {
    /// The launcher's row for this volume, under its own label.
    pub fn to_dto(&self) -> (d: VolumeDto)
        ensures
            d.path@ == self.path@,
            d.label@ == self.info.label@,
            d.filesystem@ == self.info.filesystem@,
            d.total_bytes == self.info.total_bytes,
            d.used_bytes == used_of(self.info.total_bytes, self.info.free_bytes),
            d.free_bytes == self.info.free_bytes,
    {
        VolumeDto::new(self.path.clone(), self.info.label.clone(), &self.info)
    }
}

} // verus!
