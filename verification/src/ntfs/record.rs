//! MFT FILE records: fixup repair, attribute walking, and extraction of
//! the name, parent, timestamps and sizes that the scan tree needs.

use vstd::prelude::*;

use super::{
    fits, le_at, oob, slice_at, u16_at, u32_at, u64_at, u8_at, unix_secs_of,
    filetime_to_unix_secs, NtfsError,
};

verus! {

/// What one FILE record says about a file.
#[derive(Debug, Clone, PartialEq, Eq, Default)]
pub struct FileRecord {
    /// Self-reported record number (NTFS 3.0+).
    pub record_number: Option<u64>,
    pub in_use: bool,
    pub is_dir: bool,
    /// 0 for a base record; otherwise the record this one extends.
    pub base_record: u64,
    pub hard_link_count: u16,
    pub name: Option<String>,
    /// MFT record number of the containing directory.
    pub parent: Option<u64>,
    pub mtime: i64,
    pub size_logical: u64,
    pub size_alloc: u64,
    /// The record's attributes spill into other records, so its sizes may
    /// be incomplete.
    pub has_attribute_list: bool,
}

/// A [`FileRecord`] with its name as characters.
pub struct FileFacts {
    pub record_number: Option<u64>,
    pub in_use: bool,
    pub is_dir: bool,
    pub base_record: u64,
    pub hard_link_count: u16,
    pub name: Option<Seq<char>>,
    pub parent: Option<u64>,
    pub mtime: i64,
    pub size_logical: u64,
    pub size_alloc: u64,
    pub has_attribute_list: bool,
}

impl View for FileRecord {
    type V = FileFacts;

    open spec fn view(&self) -> FileFacts {
        FileFacts {
            record_number: self.record_number,
            in_use: self.in_use,
            is_dir: self.is_dir,
            base_record: self.base_record,
            hard_link_count: self.hard_link_count,
            name: match self.name {
                Some(s) => Some(s@),
                None => None,
            },
            parent: self.parent,
            mtime: self.mtime,
            size_logical: self.size_logical,
            size_alloc: self.size_alloc,
            has_attribute_list: self.has_attribute_list,
        }
    }
}

/// The signature `FILE` that starts every FILE record.
pub open spec fn file_magic() -> Seq<u8> {
    seq![0x46u8, 0x49u8, 0x4Cu8, 0x45u8]
}

/// Whether `s` is `FILE`.
fn is_file_magic(s: &[u8]) -> (r: bool)
    ensures
        r == (s@ == file_magic()),
{
    if s.len() != 4 {
        return false;
    }
    let r = s[0] == 0x46 && s[1] == 0x49 && s[2] == 0x4C && s[3] == 0x45;
    proof {
        if r {
            assert(s@ =~= file_magic());
        }
    }
    r
}

// ---------------------------------------------------------------------
// Fixups
// ---------------------------------------------------------------------

/// Outcome and final bytes of undoing the update sequence array for
/// sectors `k..sectors`, with the array at `usa` and its number `usn`.
pub open spec fn fixup_sectors(
    b: Seq<u8>,
    usa: int,
    usn: nat,
    bps: int,
    sectors: int,
    k: int,
) -> (Result<(), NtfsError>, Seq<u8>)
    decreases sectors - k,
{
    if k >= sectors {
        (Ok(()), b)
    } else {
        let ro = usa + 2 + 2 * k;
        let footer = (k + 1) * bps - 2;
        if !fits(b, ro, 2) {
            (Err(oob(b, ro, 2)), b)
        } else if !fits(b, footer, 2) {
            (Err(oob(b, footer, 2)), b)
        } else if le_at(b, footer, 2) != usn {
            (Err(NtfsError::FixupMismatch), b)
        } else {
            let rep = le_at(b, ro, 2);
            fixup_sectors(
                b.update(footer, (rep % 256) as u8).update(footer + 1, (rep / 256) as u8),
                usa,
                usn,
                bps,
                sectors,
                k + 1,
            )
        }
    }
}

/// Outcome and final bytes of [`apply_fixups`] on `b`.
pub open spec fn fixups_of(b: Seq<u8>, bps: u32) -> (Result<(), NtfsError>, Seq<u8>) {
    if !fits(b, 0, 4) {
        (Err(oob(b, 0, 4)), b)
    } else if b.subrange(0, 4) != file_magic() {
        (Err(NtfsError::BadMagic), b)
    } else if !fits(b, 0x04, 2) {
        (Err(oob(b, 0x04, 2)), b)
    } else if !fits(b, 0x06, 2) {
        (Err(oob(b, 0x06, 2)), b)
    } else {
        let usa = le_at(b, 0x04, 2) as int;
        let count = le_at(b, 0x06, 2) as int;
        if count == 0 {
            (Err(NtfsError::BadField("update sequence array count")), b)
        } else if bps < 4 {
            (Err(NtfsError::BadField("bytes per sector")), b)
        } else if (count - 1) * bps > usize::MAX {
            (Err(NtfsError::BadField("update sequence array span")), b)
        } else if (count - 1) * bps > b.len() {
            (Err(NtfsError::BadField("update sequence array exceeds record")), b)
        } else if !fits(b, usa, 2) {
            (Err(oob(b, usa, 2)), b)
        } else {
            fixup_sectors(b, usa, le_at(b, usa, 2), bps as int, count - 1, 0)
        }
    }
}

/// Repairs a record in place by undoing the update sequence array.
///
/// NTFS keeps the last two bytes of every sector of a record in an array
/// in the header and writes an update sequence number over them, so a
/// torn multi-sector write shows as a footer that does not match. Nothing
/// in the record can be read until this is undone.
pub fn apply_fixups(buf: &mut [u8], bytes_per_sector: u32) -> (r: Result<(), NtfsError>)
    ensures
        (r, final(buf)@) == fixups_of(old(buf)@, bytes_per_sector),
{
    let magic = match slice_at(buf, 0, 4) {
        Ok(s) => s,
        Err(e) => return Err(e),
    };
    if !is_file_magic(magic) {
        return Err(NtfsError::BadMagic);
    }
    let usa_offset = match u16_at(buf, 0x04) {
        Ok(v) => v as usize,
        Err(e) => return Err(e),
    };
    let usa_count = match u16_at(buf, 0x06) {
        Ok(v) => v as usize,
        Err(e) => return Err(e),
    };
    if usa_count == 0 {
        return Err(NtfsError::BadField("update sequence array count"));
    }
    let sectors = usa_count - 1;
    let bps = bytes_per_sector as usize;
    if bps < 4 {
        return Err(NtfsError::BadField("bytes per sector"));
    }
    let covered = match sectors.checked_mul(bps) {
        Some(c) => c,
        None => return Err(NtfsError::BadField("update sequence array span")),
    };
    if covered > buf.len() {
        return Err(NtfsError::BadField("update sequence array exceeds record"));
    }
    let usn = match u16_at(buf, usa_offset) {
        Ok(v) => v,
        Err(e) => return Err(e),
    };
    let ghost b0 = buf@;
    let ghost usn_n = le_at(b0, usa_offset as int, 2);
    let mut sector: usize = 0;
    while sector < sectors
        invariant
            b0 == old(buf)@,
            sector <= sectors,
            sectors * bps == covered <= buf@.len(),
            usa_offset < 0x1_0000,
            sectors < 0x1_0000,
            bps >= 4,
            usn == usn_n,
            fixups_of(b0, bytes_per_sector) == fixup_sectors(
                buf@,
                usa_offset as int,
                usn_n,
                bps as int,
                sectors as int,
                sector as int,
            ),
        decreases sectors - sector,
    {
        let ghost cur = buf@;
        let ro = usa_offset + 2 + sector * 2;
        let replacement = match u16_at(buf, ro) {
            Ok(v) => v,
            Err(e) => {
                assert(fixup_sectors(cur, usa_offset as int, usn_n, bps as int, sectors as int, sector as int)
                    == (Err::<(), NtfsError>(oob(cur, ro as int, 2)), cur));
                return Err(e);
            },
        };
        assert((sector + 1) * bps <= sectors * bps && (sector + 1) * bps >= bps) by (nonlinear_arith)
            requires
                sector < sectors,
        ;
        let footer = (sector + 1) * bps - 2;
        let found = match u16_at(buf, footer) {
            Ok(v) => v,
            Err(e) => return Err(e),
        };
        if found != usn {
            return Err(NtfsError::FixupMismatch);
        }
        buf[footer] = (replacement % 256) as u8;
        buf[footer + 1] = (replacement / 256) as u8;
        sector = sector + 1;
    }
    Ok(())
}

// ---------------------------------------------------------------------
// Attributes
// ---------------------------------------------------------------------

/// The value bytes of a resident attribute.
pub open spec fn resident_value_of(attr: Seq<u8>) -> Result<Seq<u8>, NtfsError> {
    if !fits(attr, 0x08, 1) {
        Err(oob(attr, 0x08, 1))
    } else if attr[0x08] != 0 {
        Err(NtfsError::BadField("attribute is non-resident"))
    } else if !fits(attr, 0x10, 4) {
        Err(oob(attr, 0x10, 4))
    } else if !fits(attr, 0x14, 2) {
        Err(oob(attr, 0x14, 2))
    } else {
        let len = le_at(attr, 0x10, 4) as int;
        let off = le_at(attr, 0x14, 2) as int;
        if !fits(attr, off, len) {
            Err(oob(attr, off, len))
        } else {
            Ok(attr.subrange(off, off + len))
        }
    }
}

/// The value bytes of a resident attribute; a non-resident one holds a
/// runlist rather than a value and is an error here.
fn resident_value(attr: &[u8]) -> (r: Result<&[u8], NtfsError>)
    ensures
        match (r, resident_value_of(attr@)) {
            (Ok(v), Ok(s)) => v@ == s,
            (Err(e), Err(f)) => e == f,
            _ => false,
        },
{
    let nr = match u8_at(attr, 0x08) {
        Ok(v) => v,
        Err(e) => return Err(e),
    };
    if nr != 0 {
        return Err(NtfsError::BadField("attribute is non-resident"));
    }
    let value_len = match u32_at(attr, 0x10) {
        Ok(v) => v as usize,
        Err(e) => return Err(e),
    };
    let value_off = match u16_at(attr, 0x14) {
        Ok(v) => v as usize,
        Err(e) => return Err(e),
    };
    slice_at(attr, value_off, value_len)
}

/// `(logical, allocated)` sizes of a `$DATA` attribute: a resident stream
/// lives inside the record and occupies no clusters; of a non-resident
/// stream only the fragment starting at VCN 0 carries the totals.
pub open spec fn data_sizes_of(attr: Seq<u8>) -> Result<(u64, u64), NtfsError> {
    if !fits(attr, 0x08, 1) {
        Err(oob(attr, 0x08, 1))
    } else if attr[0x08] == 0 {
        if !fits(attr, 0x10, 4) {
            Err(oob(attr, 0x10, 4))
        } else {
            Ok((le_at(attr, 0x10, 4) as u64, 0u64))
        }
    } else if !fits(attr, 0x10, 8) {
        Err(oob(attr, 0x10, 8))
    } else if le_at(attr, 0x10, 8) != 0 {
        Ok((0u64, 0u64))
    } else if !fits(attr, 0x28, 8) {
        Err(oob(attr, 0x28, 8))
    } else if !fits(attr, 0x30, 8) {
        Err(oob(attr, 0x30, 8))
    } else {
        Ok((le_at(attr, 0x30, 8) as u64, le_at(attr, 0x28, 8) as u64))
    }
}

fn data_sizes(attr: &[u8]) -> (r: Result<(u64, u64), NtfsError>)
    ensures
        r == data_sizes_of(attr@),
{
    let nr = match u8_at(attr, 0x08) {
        Ok(v) => v,
        Err(e) => return Err(e),
    };
    if nr == 0 {
        let value_len = match u32_at(attr, 0x10) {
            Ok(v) => v as u64,
            Err(e) => return Err(e),
        };
        return Ok((value_len, 0));
    }
    let start_vcn = match u64_at(attr, 0x10) {
        Ok(v) => v,
        Err(e) => return Err(e),
    };
    if start_vcn != 0 {
        return Ok((0, 0));
    }
    let allocated = match u64_at(attr, 0x28) {
        Ok(v) => v,
        Err(e) => return Err(e),
    };
    let real_size = match u64_at(attr, 0x30) {
        Ok(v) => v,
        Err(e) => return Err(e),
    };
    Ok((real_size, allocated))
}

/// UTF-16 decoding with every unpaired surrogate replaced by U+FFFD, as
/// `String::from_utf16_lossy` decodes.
pub open spec fn utf16_lossy(u: Seq<u16>) -> Seq<char>
    decreases u.len(),
{
    if u.len() == 0 {
        Seq::empty()
    } else if u[0] < 0xD800 || u[0] > 0xDFFF {
        seq![u[0] as char] + utf16_lossy(u.drop_first())
    } else if u[0] <= 0xDBFF && u.len() >= 2 && 0xDC00 <= u[1] <= 0xDFFF {
        seq![(0x10000 + (u[0] - 0xD800) * 0x400 + (u[1] - 0xDC00)) as char] + utf16_lossy(
            u.subrange(2, u.len() as int),
        )
    } else {
        seq!['\u{FFFD}'] + utf16_lossy(u.drop_first())
    }
}

/// `String::from_utf16_lossy`: decodes UTF-16 code units, replacing each
/// unpaired surrogate with U+FFFD, as its documentation states.
#[verifier::external_body]
pub(crate) fn string_from_utf16_lossy(units: &[u16]) -> (s: String)
    ensures
        s@ == utf16_lossy(units@),
{
    String::from_utf16_lossy(units)
}

/// The UTF-16 code units held by the bytes `b`, two bytes each,
/// little-endian.
pub open spec fn utf16_units(b: Seq<u8>) -> Seq<u16> {
    Seq::new(b.len() / 2, |i: int| le_at(b, 2 * i, 2) as u16)
}

/// Rank of a `$FILE_NAME` namespace: Win32 names win, then POSIX, and a
/// DOS 8.3 alias ranks lowest but still beats having no name.
pub open spec fn namespace_rank(ns: u8) -> u8 {
    if ns == 1 || ns == 3 {
        3
    } else if ns == 0 {
        2
    } else {
        1
    }
}

/// `(name, parent record number, namespace rank)` of a `$FILE_NAME` value.
pub open spec fn file_name_of(v: Seq<u8>) -> Result<(Seq<char>, u64, u8), NtfsError> {
    if !fits(v, 0x00, 8) {
        Err(oob(v, 0x00, 8))
    } else if !fits(v, 0x40, 1) {
        Err(oob(v, 0x40, 1))
    } else if !fits(v, 0x41, 1) {
        Err(oob(v, 0x41, 1))
    } else if !fits(v, 0x42, 2 * v[0x40]) {
        Err(oob(v, 0x42, 2 * v[0x40]))
    } else {
        Ok(
            (
                utf16_lossy(utf16_units(v.subrange(0x42, 0x42 + 2 * v[0x40]))),
                (le_at(v, 0x00, 8) % 0x1_0000_0000_0000) as u64,
                namespace_rank(v[0x41]),
            ),
        )
    }
}

fn parse_file_name(value: &[u8]) -> (r: Result<(String, u64, u8), NtfsError>)
    ensures
        match (r, file_name_of(value@)) {
            (Ok((n, p, k)), Ok((sn, sp, sk))) => n@ == sn && p == sp && k == sk,
            (Err(e), Err(f)) => e == f,
            _ => false,
        },
{
    let raw_parent = match u64_at(value, 0x00) {
        Ok(v) => v,
        Err(e) => return Err(e),
    };
    let parent = raw_parent % 0x1_0000_0000_0000;
    let name_len = match u8_at(value, 0x40) {
        Ok(v) => v as usize,
        Err(e) => return Err(e),
    };
    let namespace = match u8_at(value, 0x41) {
        Ok(v) => v,
        Err(e) => return Err(e),
    };
    let bytes = match slice_at(value, 0x42, name_len * 2) {
        Ok(b) => b,
        Err(e) => return Err(e),
    };
    let mut units: Vec<u16> = Vec::new();
    let mut i: usize = 0;
    while i < name_len
        invariant
            i <= name_len < 256,
            bytes@.len() == 2 * name_len,
            units@ == utf16_units(bytes@).take(i as int),
        decreases name_len - i,
    {
        let u = match u16_at(bytes, 2 * i) {
            Ok(v) => v,
            Err(_) => 0,
        };
        units.push(u);
        proof {
            assert(units@ =~= utf16_units(bytes@).take(i + 1));
        }
        i = i + 1;
    }
    proof {
        assert(utf16_units(bytes@).take(name_len as int) =~= utf16_units(bytes@));
    }
    let name = string_from_utf16_lossy(units.as_slice());
    let rank: u8 = if namespace == 1 || namespace == 3 {
        3
    } else if namespace == 0 {
        2
    } else {
        1
    };
    Ok((name, parent, rank))
}

// ---------------------------------------------------------------------
// Record parsing
// ---------------------------------------------------------------------

/// State of the attribute walk: the record so far, the rank of the name
/// taken, and whether the unnamed `$DATA` stream was seen.
pub struct WalkState {
    pub facts: FileFacts,
    pub rank: u8,
    pub saw_unnamed: bool,
}

/// `a + b`, or `u64::MAX` when that overflows.
pub open spec fn sat_add(a: u64, b: u64) -> u64 {
    if a + b > u64::MAX {
        u64::MAX
    } else {
        (a + b) as u64
    }
}

/// The walk state after the attribute `attr` of type `ty`.
pub open spec fn attr_step(ty: nat, attr: Seq<u8>, st: WalkState) -> Result<WalkState, NtfsError> {
    if ty == 0x10 {
        match resident_value_of(attr) {
            Ok(v) => if fits(v, 0x08, 8) {
                Ok(
                    WalkState {
                        facts: FileFacts { mtime: unix_secs_of(le_at(v, 0x08, 8) as u64), ..st.facts },
                        ..st
                    },
                )
            } else {
                Ok(st)
            },
            Err(_) => Ok(st),
        }
    } else if ty == 0x20 {
        Ok(WalkState { facts: FileFacts { has_attribute_list: true, ..st.facts }, ..st })
    } else if ty == 0x30 {
        match resident_value_of(attr) {
            Ok(v) => match file_name_of(v) {
                Ok((name, parent, rank)) => if rank > st.rank {
                    Ok(
                        WalkState {
                            facts: FileFacts { name: Some(name), parent: Some(parent), ..st.facts },
                            rank,
                            ..st
                        },
                    )
                } else {
                    Ok(st)
                },
                Err(_) => Ok(st),
            },
            Err(_) => Ok(st),
        }
    } else if ty == 0x80 {
        match data_sizes_of(attr) {
            Err(e) => Err(e),
            Ok((logical, alloc)) => {
                let named = attr[0x09] != 0;
                if named || !st.saw_unnamed {
                    Ok(
                        WalkState {
                            facts: FileFacts {
                                size_logical: sat_add(st.facts.size_logical, logical),
                                size_alloc: sat_add(st.facts.size_alloc, alloc),
                                ..st.facts
                            },
                            saw_unnamed: st.saw_unnamed || !named,
                            ..st
                        },
                    )
                } else {
                    Ok(st)
                }
            },
        }
    } else {
        Ok(st)
    }
}

/// The walk over the attributes of `b` from `off`, stopping at the end
/// marker, at `limit`, or at an attribute whose length is short or runs
/// past `limit`.
pub open spec fn attr_walk(b: Seq<u8>, limit: int, off: int, st: WalkState) -> Result<
    WalkState,
    NtfsError,
>
    decreases limit - off,
{
    if off + 8 > limit {
        Ok(st)
    } else {
        let ty = le_at(b, off, 4);
        let len = le_at(b, off + 4, 4) as int;
        if ty == 0xFFFF_FFFF {
            Ok(st)
        } else if len < 16 || off + len > limit {
            Ok(st)
        } else {
            match attr_step(ty, b.subrange(off, off + len), st) {
                Err(e) => Err(e),
                Ok(next) => attr_walk(b, limit, off + len, next),
            }
        }
    }
}

/// What [`parse`] gives for the bytes `b`.
pub open spec fn record_of(b: Seq<u8>) -> Result<FileFacts, NtfsError> {
    if !fits(b, 0, 4) {
        Err(oob(b, 0, 4))
    } else if b.subrange(0, 4) != file_magic() {
        Err(NtfsError::BadMagic)
    } else if !fits(b, 0x16, 2) {
        Err(oob(b, 0x16, 2))
    } else if !fits(b, 0x20, 8) {
        Err(oob(b, 0x20, 8))
    } else if !fits(b, 0x12, 2) {
        Err(oob(b, 0x12, 2))
    } else {
        let flags = le_at(b, 0x16, 2);
        let base = FileFacts {
            record_number: if fits(b, 0x2C, 4) {
                Some(le_at(b, 0x2C, 4) as u64)
            } else {
                None
            },
            in_use: flags % 2 == 1,
            is_dir: (flags / 2) % 2 == 1,
            base_record: (le_at(b, 0x20, 8) % 0x1_0000_0000_0000) as u64,
            hard_link_count: le_at(b, 0x12, 2) as u16,
            name: None,
            parent: None,
            mtime: 0,
            size_logical: 0,
            size_alloc: 0,
            has_attribute_list: false,
        };
        if !base.in_use {
            Ok(base)
        } else if !fits(b, 0x14, 2) {
            Err(oob(b, 0x14, 2))
        } else if !fits(b, 0x18, 4) {
            Err(oob(b, 0x18, 4))
        } else {
            let used = le_at(b, 0x18, 4) as int;
            let limit = if used < b.len() {
                used
            } else {
                b.len() as int
            };
            finish_walk(
                attr_walk(
                    b,
                    limit,
                    le_at(b, 0x14, 2) as int,
                    WalkState { facts: base, rank: 0, saw_unnamed: false },
                ),
            )
        }
    }
}

/// The record an attribute walk ends with: a directory has no size of its
/// own.
pub open spec fn finish_walk(r: Result<WalkState, NtfsError>) -> Result<FileFacts, NtfsError> {
    match r {
        Err(e) => Err(e),
        Ok(st) => if st.facts.is_dir {
            Ok(FileFacts { size_logical: 0, size_alloc: 0, ..st.facts })
        } else {
            Ok(st.facts)
        },
    }
}

/// Parses a fixed-up FILE record (call [`apply_fixups`] first).
///
/// A record not in use is returned without walking its stale attribute
/// area. Of the `$FILE_NAME` attributes the best-ranked name is kept;
/// alternate data streams add to the file's size, only the first unnamed
/// `$DATA` stream counts, and a directory has no size of its own.
pub fn parse(buf: &[u8]) -> (r: Result<FileRecord, NtfsError>)
    ensures
        match (r, record_of(buf@)) {
            (Ok(rec), Ok(f)) => rec@ == f,
            (Err(e), Err(f)) => e == f,
            _ => false,
        },
{
    let magic = match slice_at(buf, 0, 4) {
        Ok(s) => s,
        Err(e) => return Err(e),
    };
    if !is_file_magic(magic) {
        return Err(NtfsError::BadMagic);
    }
    let flags = match u16_at(buf, 0x16) {
        Ok(v) => v,
        Err(e) => return Err(e),
    };
    let record_number = match u32_at(buf, 0x2C) {
        Ok(v) => Some(v as u64),
        Err(_) => None,
    };
    let raw_base = match u64_at(buf, 0x20) {
        Ok(v) => v,
        Err(e) => return Err(e),
    };
    let hard_link_count = match u16_at(buf, 0x12) {
        Ok(v) => v,
        Err(e) => return Err(e),
    };
    let mut record = FileRecord {
        record_number,
        in_use: flags % 2 == 1,
        is_dir: (flags / 2) % 2 == 1,
        base_record: raw_base % 0x1_0000_0000_0000,
        hard_link_count,
        name: None,
        parent: None,
        mtime: 0,
        size_logical: 0,
        size_alloc: 0,
        has_attribute_list: false,
    };
    if !record.in_use {
        return Ok(record);
    }
    let first_attr = match u16_at(buf, 0x14) {
        Ok(v) => v as usize,
        Err(e) => return Err(e),
    };
    let used_size = match u32_at(buf, 0x18) {
        Ok(v) => v as usize,
        Err(e) => return Err(e),
    };
    let limit = if used_size < buf.len() {
        used_size
    } else {
        buf.len()
    };
    let ghost start = WalkState { facts: record@, rank: 0, saw_unnamed: false };
    let mut best_rank: u8 = 0;
    let mut saw_unnamed = false;
    let mut offset = first_attr;
    while offset <= limit && 8 <= limit - offset
        invariant
            limit <= buf@.len(),
            record_of(buf@) == finish_walk(attr_walk(buf@, limit as int, first_attr as int, start)),
            attr_walk(buf@, limit as int, first_attr as int, start) == attr_walk(
                buf@,
                limit as int,
                offset as int,
                WalkState { facts: record@, rank: best_rank, saw_unnamed },
            ),
            record.in_use,
            record.is_dir == start.facts.is_dir,
        ensures
            attr_walk(buf@, limit as int, first_attr as int, start) == Ok::<WalkState, NtfsError>(
                WalkState { facts: record@, rank: best_rank, saw_unnamed },
            ),
            record.is_dir == start.facts.is_dir,
        decreases limit - offset,
    {
        let ghost st = WalkState { facts: record@, rank: best_rank, saw_unnamed };
        let attr_type = match u32_at(buf, offset) {
            Ok(v) => v,
            Err(e) => return Err(e),
        };
        if attr_type == 0xFFFF_FFFF {
            break;
        }
        let attr_len = match u32_at(buf, offset + 4) {
            Ok(v) => v as usize,
            Err(e) => return Err(e),
        };
        if attr_len < 16 || attr_len > limit - offset {
            break;
        }
        let attr = match slice_at(buf, offset, attr_len) {
            Ok(a) => a,
            Err(e) => return Err(e),
        };
        if attr_type == 0x10 {
            if let Ok(value) = resident_value(attr) {
                if let Ok(ft) = u64_at(value, 0x08) {
                    record.mtime = filetime_to_unix_secs(ft);
                }
            }
        } else if attr_type == 0x20 {
            record.has_attribute_list = true;
        } else if attr_type == 0x30 {
            if let Ok(value) = resident_value(attr) {
                if let Ok((name, parent, rank)) = parse_file_name(value) {
                    if rank > best_rank {
                        best_rank = rank;
                        record.name = Some(name);
                        record.parent = Some(parent);
                    }
                }
            }
        } else if attr_type == 0x80 {
            let sizes = data_sizes(attr);
            let (logical, alloc) = match sizes {
                Ok(s) => s,
                Err(e) => {
                    proof {
                        assert(attr@ == buf@.subrange(offset as int, offset + attr_len));
                        assert(attr_step(attr_type as nat, attr@, st) == Err::<WalkState, NtfsError>(e));
                    }
                    return Err(e);
                },
            };
            let named = attr[0x09] != 0;
            if named || !saw_unnamed {
                saw_unnamed = saw_unnamed || !named;
                record.size_logical = record.size_logical.saturating_add(logical);
                record.size_alloc = record.size_alloc.saturating_add(alloc);
            }
        }
        proof {
            assert(attr@ == buf@.subrange(offset as int, offset + attr_len));
        }
        offset = offset + attr_len;
    }
    if record.is_dir {
        record.size_logical = 0;
        record.size_alloc = 0;
    }
    Ok(record)
}

/// What [`unnamed_data_runlist`] finds walking attributes from `off`.
pub open spec fn runlist_walk(b: Seq<u8>, limit: int, off: int) -> Result<Option<Seq<u8>>, NtfsError>
    decreases limit - off,
{
    if off + 8 > limit {
        Ok(None)
    } else {
        let ty = le_at(b, off, 4);
        let len = le_at(b, off + 4, 4) as int;
        if ty == 0xFFFF_FFFF {
            Ok(None)
        } else if len < 16 || off + len > limit {
            Ok(None)
        } else {
            let attr = b.subrange(off, off + len);
            if ty == 0x80 && attr[0x08] != 0 && attr[0x09] == 0 {
                if !fits(attr, 0x20, 2) {
                    Err(oob(attr, 0x20, 2))
                } else {
                    let ro = le_at(attr, 0x20, 2) as int;
                    let n = if ro <= len {
                        len - ro
                    } else {
                        len - ro + usize::MAX + 1
                    };
                    if !fits(attr, ro, n) {
                        Err(oob(attr, ro, n))
                    } else {
                        Ok(Some(attr.subrange(ro, ro + n)))
                    }
                }
            } else {
                runlist_walk(b, limit, off + len)
            }
        }
    }
}

/// What [`unnamed_data_runlist`] gives for the bytes `b`.
pub open spec fn unnamed_runlist_of(b: Seq<u8>) -> Result<Option<Seq<u8>>, NtfsError> {
    if !fits(b, 0, 4) {
        Err(oob(b, 0, 4))
    } else if b.subrange(0, 4) != file_magic() {
        Err(NtfsError::BadMagic)
    } else if !fits(b, 0x14, 2) {
        Err(oob(b, 0x14, 2))
    } else if !fits(b, 0x18, 4) {
        Err(oob(b, 0x18, 4))
    } else {
        let used = le_at(b, 0x18, 4) as int;
        let limit = if used < b.len() {
            used
        } else {
            b.len() as int
        };
        runlist_walk(b, limit, le_at(b, 0x14, 2) as int)
    }
}

/// The raw runlist bytes of the record's unnamed, non-resident `$DATA`
/// attribute, if it has one: `$MFT`'s own record describes where the
/// table lies on disk, so this is how reading the MFT starts.
pub fn unnamed_data_runlist(buf: &[u8]) -> (r: Result<Option<&[u8]>, NtfsError>)
    ensures
        match (r, unnamed_runlist_of(buf@)) {
            (Ok(Some(v)), Ok(Some(s))) => v@ == s,
            (Ok(None), Ok(None)) => true,
            (Err(e), Err(f)) => e == f,
            _ => false,
        },
{
    let magic = match slice_at(buf, 0, 4) {
        Ok(s) => s,
        Err(e) => return Err(e),
    };
    if !is_file_magic(magic) {
        return Err(NtfsError::BadMagic);
    }
    let first_attr = match u16_at(buf, 0x14) {
        Ok(v) => v as usize,
        Err(e) => return Err(e),
    };
    let used_size = match u32_at(buf, 0x18) {
        Ok(v) => v as usize,
        Err(e) => return Err(e),
    };
    let limit = if used_size < buf.len() {
        used_size
    } else {
        buf.len()
    };
    let mut offset = first_attr;
    while offset <= limit && 8 <= limit - offset
        invariant
            limit <= buf@.len(),
            unnamed_runlist_of(buf@) == runlist_walk(buf@, limit as int, first_attr as int),
            runlist_walk(buf@, limit as int, first_attr as int) == runlist_walk(
                buf@,
                limit as int,
                offset as int,
            ),
        ensures
            runlist_walk(buf@, limit as int, first_attr as int) == Ok::<Option<Seq<u8>>, NtfsError>(
                None,
            ),
        decreases limit - offset,
    {
        let attr_type = match u32_at(buf, offset) {
            Ok(v) => v,
            Err(e) => return Err(e),
        };
        if attr_type == 0xFFFF_FFFF {
            break;
        }
        let attr_len = match u32_at(buf, offset + 4) {
            Ok(v) => v as usize,
            Err(e) => return Err(e),
        };
        if attr_len < 16 || attr_len > limit - offset {
            break;
        }
        let attr = match slice_at(buf, offset, attr_len) {
            Ok(a) => a,
            Err(e) => return Err(e),
        };
        let non_resident = attr[0x08] != 0;
        let named = attr[0x09] != 0;
        if attr_type == 0x80 && non_resident && !named {
            let runlist_offset = match u16_at(attr, 0x20) {
                Ok(v) => v as usize,
                Err(e) => return Err(e),
            };
            return match slice_at(attr, runlist_offset, attr_len.wrapping_sub(runlist_offset)) {
                Ok(s) => Ok(Some(s)),
                Err(e) => Err(e),
            };
        }
        offset = offset + attr_len;
    }
    Ok(None)
}

} // verus!
