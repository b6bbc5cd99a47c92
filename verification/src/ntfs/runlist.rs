//! Data-run decoding: a non-resident attribute's compact runlist as the
//! list of on-disk extents it occupies.
//!
//! Each run starts with a header byte whose low nibble is the byte width
//! of the run length and whose high nibble is the byte width of an LCN
//! delta; a zero header ends the list. The delta is signed and relative
//! to the previous run's start, so runs can move backwards across the
//! disk. A zero-width delta marks a sparse run, a hole with no clusters
//! behind it.

use vstd::arithmetic::power2::{lemma2_to64, lemma_pow2_strictly_increases, pow2};
use vstd::prelude::*;

use super::{fits, le_at, le_read, le_signed, oob, slice_at, u8_at, NtfsError};
use crate::fmt::pow2_of;

verus! {

/// One backed run of clusters.
#[derive(Debug, Clone, Copy, PartialEq, Eq, Structural)]
pub struct Extent {
    /// Starting logical cluster number on the volume.
    pub lcn: u64,
    pub clusters: u64,
}

/// The extents decoded from `b` starting at `off`, with the previous
/// run's start at `lcn`.
pub open spec fn runs_from(b: Seq<u8>, off: int, lcn: int) -> Result<Seq<Extent>, NtfsError>
    decreases b.len() - off,
{
    if !fits(b, off, 1) {
        Err(oob(b, off, 1))
    } else if b[off] == 0 {
        Ok(Seq::empty())
    } else {
        let ls = (b[off] % 16) as int;
        let os = (b[off] / 16) as int;
        if ls == 0 || ls > 8 || os > 8 {
            Err(NtfsError::BadField("run header nibble"))
        } else if !fits(b, off + 1, ls) {
            Err(oob(b, off + 1, ls))
        } else {
            let clusters = le_at(b, off + 1, ls);
            let next = off + 1 + ls;
            if os == 0 {
                runs_from(b, next, lcn)
            } else if !fits(b, next, os) {
                Err(oob(b, next, os))
            } else {
                let nl = lcn + le_signed(b.subrange(next, next + os));
                if nl > i64::MAX {
                    Err(NtfsError::BadField("runlist LCN overflow"))
                } else if nl < 0 {
                    Err(NtfsError::BadField("negative LCN"))
                } else {
                    match runs_from(b, next + os, nl) {
                        Ok(rest) => Ok(
                            seq![Extent { lcn: nl as u64, clusters: clusters as u64 }] + rest,
                        ),
                        Err(e) => Err(e),
                    }
                }
            }
        }
    }
}

/// The extents of a whole runlist.
pub open spec fn runlist_of(b: Seq<u8>) -> Result<Seq<Extent>, NtfsError> {
    runs_from(b, 0, 0)
}

/// Decodes a runlist into its backed extents, in order. Sparse runs hold
/// no data and are skipped, but still advance past their bytes.
pub fn parse(buf: &[u8]) -> (r: Result<Vec<Extent>, NtfsError>)
    ensures
        match (r, runlist_of(buf@)) {
            (Ok(v), Ok(s)) => v@ == s,
            (Err(e), Err(f)) => e == f,
            _ => false,
        },
{
    let mut extents: Vec<Extent> = Vec::new();
    let mut offset: usize = 0;
    let mut current_lcn: i64 = 0;
    let n = buf.len();
    loop
        invariant
            n == buf@.len(),
            0 <= current_lcn,
            offset <= buf@.len(),
            match runlist_of(buf@) {
                Ok(all) => match runs_from(buf@, offset as int, current_lcn as int) {
                    Ok(rest) => all == extents@ + rest,
                    Err(_) => false,
                },
                Err(e) => match runs_from(buf@, offset as int, current_lcn as int) {
                    Ok(_) => false,
                    Err(f) => e == f,
                },
            },
        decreases buf@.len() - offset,
    {
        let ghost here = runs_from(buf@, offset as int, current_lcn as int);
        let header = match u8_at(buf, offset) {
            Ok(h) => h,
            Err(e) => return Err(e),
        };
        if header == 0 {
            proof {
                assert(extents@ + Seq::<Extent>::empty() =~= extents@);
            }
            return Ok(extents);
        }
        let len_size = (header % 16) as usize;
        let off_size = (header / 16) as usize;
        if len_size == 0 || len_size > 8 || off_size > 8 {
            return Err(NtfsError::BadField("run header nibble"));
        }
        let start = offset + 1;
        let clusters = match read_unsigned(buf, start, len_size) {
            Ok(v) => v,
            Err(e) => return Err(e),
        };
        let next = start + len_size;
        if off_size == 0 {
            offset = next;
            continue;
        }
        let delta = match read_signed(buf, next, off_size) {
            Ok(v) => v,
            Err(e) => return Err(e),
        };
        let ghost nl = current_lcn + delta;
        let sum = match current_lcn.checked_add(delta) {
            Some(v) => v,
            None => return Err(NtfsError::BadField("runlist LCN overflow")),
        };
        if sum < 0 {
            return Err(NtfsError::BadField("negative LCN"));
        }
        let ghost before = extents@;
        extents.push(Extent { lcn: sum as u64, clusters });
        proof {
            match runs_from(buf@, next + off_size, sum as int) {
                Ok(rest) => {
                    assert(before + (seq![Extent { lcn: sum as u64, clusters }] + rest) =~= extents@
                        + rest);
                },
                Err(_) => {},
            }
        }
        offset = next + off_size;
        current_lcn = sum;
    }
}

/// The little-endian unsigned value of `size <= 8` bytes at `offset`.
fn read_unsigned(buf: &[u8], offset: usize, size: usize) -> (r: Result<u64, NtfsError>)
    requires
        size <= 8,
    ensures
        fits(buf@, offset as int, size as int) ==> r == Ok::<u64, NtfsError>(
            le_at(buf@, offset as int, size as int) as u64,
        ),
        !fits(buf@, offset as int, size as int) ==> r == Err::<u64, NtfsError>(
            oob(buf@, offset as int, size as int),
        ),
{
    let bytes = match slice_at(buf, offset, size) {
        Ok(b) => b,
        Err(e) => return Err(e),
    };
    let v = le_read(bytes, 0, size);
    proof {
        assert(bytes@.subrange(0, size as int) =~= buf@.subrange(offset as int, offset + size));
    }
    Ok(v)
}

/// The little-endian value of `1..=8` bytes at `offset`, sign-extended
/// from the top bit of its last byte: a delta may be negative when a
/// later extent sits earlier on the disk.
fn read_signed(buf: &[u8], offset: usize, size: usize) -> (r: Result<i64, NtfsError>)
    requires
        1 <= size <= 8,
    ensures
        fits(buf@, offset as int, size as int) ==> r == Ok::<i64, NtfsError>(
            le_signed(buf@.subrange(offset as int, offset + size)) as i64,
        ) && i64::MIN <= le_signed(buf@.subrange(offset as int, offset + size)) <= i64::MAX,
        !fits(buf@, offset as int, size as int) ==> r == Err::<i64, NtfsError>(
            oob(buf@, offset as int, size as int),
        ),
{
    let bytes = match slice_at(buf, offset, size) {
        Ok(b) => b,
        Err(e) => return Err(e),
    };
    let v = le_read(bytes, 0, size);
    let ghost s = buf@.subrange(offset as int, offset + size);
    proof {
        assert(bytes@.subrange(0, size as int) =~= s);
        lemma2_to64();
        super::lemma_le_uint_bound(s);
        if 8 * size < 64 {
            lemma_pow2_strictly_increases((8 * size) as nat, 64);
        }
        if 8 * size - 1 < 63 {
            lemma_pow2_strictly_increases((8 * size - 1) as nat, 63);
        }
        vstd::arithmetic::power2::lemma_pow2_unfold((8 * size) as nat);
        vstd::arithmetic::power2::lemma2_to64_rest();
    }
    let half = pow2_of((8 * size - 1) as u32);
    let full = pow2_of((8 * size) as u32);
    if v as u128 >= half {
        let signed = v as i128 - full as i128;
        Ok(signed as i64)
    } else {
        Ok(v as i64)
    }
}

} // verus!
