//! NTFS Master File Table decoding: the boot sector, data-run lists and
//! FILE records, as plain functions from bytes to values.
//!
//! These parse on-disk structures that a corrupt or hostile volume
//! controls, so nothing here panics, loops forever or reads out of
//! bounds: every read is bounds-checked, every arithmetic step that could
//! overflow is checked, and a bad structure yields an error.

use vstd::arithmetic::power2::{lemma2_to64, lemma_pow2_adds, lemma_pow2_pos, pow2};
use vstd::prelude::*;
use vstd::string::StringExecFns;

use crate::fmt::{decimal, push_decimal};

pub mod boot;
pub mod record;
pub mod engine;
pub mod runlist;

verus! {

/// Why a structure could not be decoded.
#[derive(Debug, Clone, PartialEq, Eq)]
pub enum NtfsError {
    /// A read ran past the end of the buffer it was given.
    OutOfBounds { offset: usize, len: usize, buf_len: usize },
    /// A structure's signature did not match (not NTFS, not a FILE record).
    BadMagic,
    /// A field held a value that cannot describe a real volume.
    BadField(&'static str),
    /// The update sequence number in a sector footer did not match the
    /// record's: the record is torn.
    FixupMismatch,
}

/// What [`NtfsError::message`] says for each error.
pub open spec fn error_message(e: NtfsError) -> Seq<char> {
    match e {
        NtfsError::OutOfBounds { offset, len, buf_len } => "read of "@ + decimal(len as nat)
            + " bytes at offset "@ + decimal(offset as nat) + " exceeds buffer of "@ + decimal(
            buf_len as nat,
        ),
        NtfsError::BadMagic => "structure signature did not match"@,
        NtfsError::BadField(what) => "implausible value for "@ + what@,
        NtfsError::FixupMismatch => "update sequence number mismatch (torn record)"@,
    }
}

impl NtfsError {
    /// A one-line description of the error.
    pub fn message(&self) -> (s: String)
        ensures
            s@ == error_message(*self),
    {
        proof {
            reveal_strlit("read of ");
            reveal_strlit(" bytes at offset ");
            reveal_strlit(" exceeds buffer of ");
            reveal_strlit("structure signature did not match");
            reveal_strlit("implausible value for ");
            reveal_strlit("update sequence number mismatch (torn record)");
        }
        match self {
            NtfsError::OutOfBounds { offset, len, buf_len } => {
                let mut s = String::from_str("read of ");
                push_decimal(&mut s, *len as u128);
                s.append(" bytes at offset ");
                push_decimal(&mut s, *offset as u128);
                s.append(" exceeds buffer of ");
                push_decimal(&mut s, *buf_len as u128);
                s
            },
            NtfsError::BadMagic => String::from_str("structure signature did not match"),
            NtfsError::BadField(what) => {
                let mut s = String::from_str("implausible value for ");
                s.append(what);
                s
            },
            NtfsError::FixupMismatch => String::from_str(
                "update sequence number mismatch (torn record)",
            ),
        }
    }
}

/// Whether `len` bytes at `off` lie inside `buf`.
pub open spec fn fits(buf: Seq<u8>, off: int, len: int) -> bool {
    0 <= off && off + len <= buf.len()
}

/// The error a read of `len` bytes at `off` past the end of `buf` gives.
pub open spec fn oob(buf: Seq<u8>, off: int, len: int) -> NtfsError {
    NtfsError::OutOfBounds { offset: off as usize, len: len as usize, buf_len: buf.len() as usize }
}

/// The little-endian value of the bytes `s`.
pub open spec fn le_uint(s: Seq<u8>) -> nat
    decreases s.len(),
{
    if s.len() == 0 {
        0
    } else {
        (s[0] + 256 * le_uint(s.drop_first())) as nat
    }
}

/// The little-endian value of the `len` bytes of `buf` at `off`.
pub open spec fn le_at(buf: Seq<u8>, off: int, len: int) -> nat {
    le_uint(buf.subrange(off, off + len))
}

/// The little-endian value of `s` read as a two's-complement number of
/// `s.len()` bytes (sign-extended from the top bit of its last byte).
pub open spec fn le_signed(s: Seq<u8>) -> int {
    if s.len() > 0 && le_uint(s) >= pow2((8 * s.len() - 1) as nat) {
        le_uint(s) - pow2(8 * s.len())
    } else {
        le_uint(s) as int
    }
}

proof fn lemma_le_uint_bound(s: Seq<u8>)
    ensures
        le_uint(s) < pow2(8 * s.len()),
    decreases s.len(),
{
    lemma2_to64();
    if s.len() > 0 {
        lemma_le_uint_bound(s.drop_first());
        lemma_pow2_adds(8, 8 * (s.len() - 1) as nat);
        assert(8 + 8 * (s.len() - 1) == 8 * s.len());
        let p = pow2(8 * (s.len() - 1) as nat);
        assert(s[0] + 256 * le_uint(s.drop_first()) < 256 * p) by (nonlinear_arith)
            requires
                s[0] < 256,
                le_uint(s.drop_first()) < p,
        ;
    }
}

/// Little-endian value of `len <= 8` bytes at `off`, which must fit.
pub(crate) fn le_read(buf: &[u8], off: usize, len: usize) -> (v: u64)
    requires
        len <= 8,
        fits(buf@, off as int, len as int),
    ensures
        v == le_at(buf@, off as int, len as int),
{
    proof {
        lemma2_to64();
    }
    let mut v: u64 = 0;
    let mut i = len;
    let n = buf.len();
    proof {
        assert(buf@.subrange(off + len, off + len) =~= Seq::<u8>::empty());
    }
    while i > 0
        invariant
            n == buf@.len(),
            i <= len <= 8,
            fits(buf@, off as int, len as int),
            v == le_uint(buf@.subrange(off + i, off + len)),
            pow2(8) == 256,
            pow2(64) == 0x1_0000_0000_0000_0000,
        decreases i,
    {
        i = i - 1;
        let ghost tail = buf@.subrange(off + i + 1, off + len);
        let ghost whole = buf@.subrange(off + i, off + len);
        proof {
            assert(whole.drop_first() =~= tail);
            lemma_le_uint_bound(tail);
            assert(8 * tail.len() <= 56);
            if 8 * tail.len() < 56 {
                vstd::arithmetic::power2::lemma_pow2_strictly_increases(8 * tail.len(), 56);
            }
            vstd::arithmetic::power2::lemma2_to64_rest();
            assert(v < pow2(56));
            assert(v < 0x100_0000_0000_0000);
        }
        v = v * 256 + buf[off + i] as u64;
    }
    proof {
        assert(buf@.subrange(off + 0, off + len) =~= buf@.subrange(off as int, off + len));
    }
    v
}

/// The byte at `offset`.
pub fn u8_at(buf: &[u8], offset: usize) -> (r: Result<u8, NtfsError>)
    ensures
        fits(buf@, offset as int, 1) ==> r == Ok::<u8, NtfsError>(buf@[offset as int]),
        !fits(buf@, offset as int, 1) ==> r == Err::<u8, NtfsError>(oob(buf@, offset as int, 1)),
{
    if offset < buf.len() {
        Ok(buf[offset])
    } else {
        Err(NtfsError::OutOfBounds { offset, len: 1, buf_len: buf.len() })
    }
}

/// The little-endian `u16` at `offset`.
pub fn u16_at(buf: &[u8], offset: usize) -> (r: Result<u16, NtfsError>)
    ensures
        fits(buf@, offset as int, 2) ==> r == Ok::<u16, NtfsError>(le_at(buf@, offset as int, 2) as u16)
            && le_at(buf@, offset as int, 2) < 0x1_0000,
        !fits(buf@, offset as int, 2) ==> r == Err::<u16, NtfsError>(oob(buf@, offset as int, 2)),
{
    if offset <= buf.len() && 2 <= buf.len() - offset {
        proof {
            lemma_le_uint_bound(buf@.subrange(offset as int, offset + 2));
            vstd::arithmetic::power2::lemma2_to64();
        }
        Ok(le_read(buf, offset, 2) as u16)
    } else {
        Err(NtfsError::OutOfBounds { offset, len: 2, buf_len: buf.len() })
    }
}

/// The little-endian `u32` at `offset`.
pub fn u32_at(buf: &[u8], offset: usize) -> (r: Result<u32, NtfsError>)
    ensures
        fits(buf@, offset as int, 4) ==> r == Ok::<u32, NtfsError>(le_at(buf@, offset as int, 4) as u32)
            && le_at(buf@, offset as int, 4) < 0x1_0000_0000,
        !fits(buf@, offset as int, 4) ==> r == Err::<u32, NtfsError>(oob(buf@, offset as int, 4)),
{
    if offset <= buf.len() && 4 <= buf.len() - offset {
        proof {
            lemma_le_uint_bound(buf@.subrange(offset as int, offset + 4));
            vstd::arithmetic::power2::lemma2_to64();
        }
        Ok(le_read(buf, offset, 4) as u32)
    } else {
        Err(NtfsError::OutOfBounds { offset, len: 4, buf_len: buf.len() })
    }
}

/// The little-endian `u64` at `offset`.
pub fn u64_at(buf: &[u8], offset: usize) -> (r: Result<u64, NtfsError>)
    ensures
        fits(buf@, offset as int, 8) ==> r == Ok::<u64, NtfsError>(le_at(buf@, offset as int, 8) as u64)
            && le_at(buf@, offset as int, 8) < 0x1_0000_0000_0000_0000,
        !fits(buf@, offset as int, 8) ==> r == Err::<u64, NtfsError>(oob(buf@, offset as int, 8)),
{
    if offset <= buf.len() && 8 <= buf.len() - offset {
        proof {
            lemma_le_uint_bound(buf@.subrange(offset as int, offset + 8));
            vstd::arithmetic::power2::lemma2_to64();
        }
        Ok(le_read(buf, offset, 8))
    } else {
        Err(NtfsError::OutOfBounds { offset, len: 8, buf_len: buf.len() })
    }
}

/// The `len` bytes at `offset`. An `offset + len` that overflows is out
/// of bounds like any other.
pub fn slice_at(buf: &[u8], offset: usize, len: usize) -> (r: Result<&[u8], NtfsError>)
    ensures
        fits(buf@, offset as int, len as int) ==> r.is_ok() && r->Ok_0@ == buf@.subrange(
            offset as int,
            offset + len,
        ),
        !fits(buf@, offset as int, len as int) ==> r == Err::<&[u8], NtfsError>(
            oob(buf@, offset as int, len as int),
        ),
{
    if offset <= buf.len() && len <= buf.len() - offset {
        Ok(vstd::slice::slice_subrange(buf, offset, offset + len))
    } else {
        Err(NtfsError::OutOfBounds { offset, len, buf_len: buf.len() })
    }
}

/// Windows `FILETIME` (100 ns ticks since 1601-01-01) as Unix seconds;
/// anything before the Unix epoch, including the zeroes that unused
/// records are full of, clamps to 0.
pub open spec fn unix_secs_of(filetime: u64) -> i64 {
    let secs = filetime / 10_000_000;
    if secs >= 11_644_473_600 {
        (secs - 11_644_473_600) as i64
    } else {
        0
    }
}

/// Converts a `FILETIME` to Unix seconds, clamping pre-1970 values to 0.
pub fn filetime_to_unix_secs(filetime: u64) -> (s: i64)
    ensures
        s == unix_secs_of(filetime),
{
    let secs = filetime / 10_000_000;
    secs.saturating_sub(11_644_473_600) as i64
}

/// What one parsed record adds to the live progress counters: a file and
/// its on-disk bytes, or nothing. Directories carry no bytes of their own,
/// an extension record's bytes belong to its base record, and a record
/// not in use is a deleted file that no longer occupies space.
pub fn progress_contribution(rec: &record::FileRecord) -> (r: Option<u64>)
    ensures
        r == if !rec.in_use || rec.base_record != 0 || rec.is_dir {
            None::<u64>
        } else {
            Some(rec.size_alloc)
        },
{
    if !rec.in_use || rec.base_record != 0 || rec.is_dir {
        return None;
    }
    Some(rec.size_alloc)
}


/// `2^k` as a `u32`.
pub(crate) fn pow2_u32(k: u32) -> (r: u32)
    requires
        k <= 31,
    ensures
        r == pow2(k as nat),
{
    proof {
        lemma2_to64();
    }
    let mut r: u32 = 1;
    let mut i: u32 = 0;
    while i < k
        invariant
            i <= k <= 31,
            r == pow2(i as nat),
            pow2(31) == 0x8000_0000,
        decreases k - i,
    {
        proof {
            vstd::arithmetic::power2::lemma_pow2_unfold((i + 1) as nat);
            if i + 1 < 31 {
                vstd::arithmetic::power2::lemma_pow2_strictly_increases((i + 1) as nat, 31);
            }
        }
        r = r * 2;
        i = i + 1;
    }
    r
}
} // verus!
