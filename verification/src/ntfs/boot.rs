//! NTFS boot sector parsing: where the MFT lives and how big its records
//! are.

use vstd::arithmetic::power2::pow2;
use vstd::prelude::*;

use super::{fits, le_at, oob, pow2_u32, slice_at, u16_at, u64_at, u8_at, NtfsError};

verus! {

/// Geometry read from an NTFS boot sector.
#[derive(Debug, Clone, Copy, PartialEq, Eq, Structural)]
pub struct BootSector {
    pub bytes_per_sector: u32,
    pub sectors_per_cluster: u32,
    pub bytes_per_cluster: u64,
    /// Logical cluster number where the `$MFT` file begins.
    pub mft_lcn: u64,
    /// Size of one MFT FILE record; almost always 1024.
    pub bytes_per_record: u32,
    pub total_sectors: u64,
}

impl BootSector {
    /// Byte offset of the MFT on the volume, or `None` if it overflows.
    pub fn mft_byte_offset(&self) -> (r: Option<u64>)
        ensures
            r == if self.mft_lcn * self.bytes_per_cluster <= u64::MAX {
                Some((self.mft_lcn * self.bytes_per_cluster) as u64)
            } else {
                None::<u64>
            },
    {
        self.mft_lcn.checked_mul(self.bytes_per_cluster)
    }
}

/// The OEM identifier `NTFS    ` that every NTFS boot sector carries.
pub open spec fn oem_id() -> Seq<u8> {
    seq![0x4Eu8, 0x54u8, 0x46u8, 0x53u8, 0x20u8, 0x20u8, 0x20u8, 0x20u8]
}

/// Whether a sector size is one a real volume can have.
pub open spec fn valid_sector_size(bps: nat) -> bool {
    bps == 256 || bps == 512 || bps == 1024 || bps == 2048 || bps == 4096
}

/// Sectors per cluster from its raw byte: a plain count, or above 0x80 an
/// exponent `2^(256 - raw)`.
pub open spec fn sectors_per_cluster_of(raw: u8) -> Result<u32, NtfsError> {
    if raw > 0x80 {
        if 256 - raw > 31 {
            Err(NtfsError::BadField("sectors per cluster exponent"))
        } else {
            Ok(pow2((256 - raw) as nat) as u32)
        }
    } else if raw == 0 {
        Err(NtfsError::BadField("sectors per cluster"))
    } else {
        Ok(raw as u32)
    }
}

/// Bytes per FILE record from its raw byte: read as a signed byte, a
/// positive value counts clusters, a negative one is a log2 byte size.
pub open spec fn bytes_per_record_of(raw: u8, bytes_per_cluster: nat) -> Result<u32, NtfsError> {
    if 1 <= raw <= 127 {
        if raw * bytes_per_cluster > u32::MAX {
            Err(NtfsError::BadField("bytes per record"))
        } else {
            Ok((raw * bytes_per_cluster) as u32)
        }
    } else {
        let shift: int = if raw == 0 {
            0
        } else {
            256 - raw
        };
        if shift < 9 || shift > 20 {
            Err(NtfsError::BadField("record size exponent"))
        } else {
            Ok(pow2(shift as nat) as u32)
        }
    }
}

/// What [`parse`] gives for the bytes `b`.
pub open spec fn boot_of(b: Seq<u8>) -> Result<BootSector, NtfsError> {
    if !fits(b, 3, 8) {
        Err(oob(b, 3, 8))
    } else if b.subrange(3, 11) != oem_id() {
        Err(NtfsError::BadMagic)
    } else if !fits(b, 0x0B, 2) {
        Err(oob(b, 0x0B, 2))
    } else if !valid_sector_size(le_at(b, 0x0B, 2)) {
        Err(NtfsError::BadField("bytes per sector"))
    } else if !fits(b, 0x0D, 1) {
        Err(oob(b, 0x0D, 1))
    } else {
        let bps = le_at(b, 0x0B, 2);
        match sectors_per_cluster_of(b[0x0D]) {
            Err(e) => Err(e),
            Ok(spc) => {
                let bpc: nat = (bps * spc) as nat;
                if !fits(b, 0x28, 8) {
                    Err(oob(b, 0x28, 8))
                } else if !fits(b, 0x30, 8) {
                    Err(oob(b, 0x30, 8))
                } else if !fits(b, 0x40, 1) {
                    Err(oob(b, 0x40, 1))
                } else {
                    match bytes_per_record_of(b[0x40], bpc) {
                        Err(e) => Err(e),
                        Ok(bpr) => if bpr < 48 || (bpr as nat) % bps != 0 {
                            Err(NtfsError::BadField("bytes per record"))
                        } else {
                            Ok(
                                BootSector {
                                    bytes_per_sector: bps as u32,
                                    sectors_per_cluster: spc,
                                    bytes_per_cluster: bpc as u64,
                                    mft_lcn: le_at(b, 0x30, 8) as u64,
                                    bytes_per_record: bpr,
                                    total_sectors: le_at(b, 0x28, 8) as u64,
                                },
                            )
                        },
                    }
                }
            },
        }
    }
}

/// Whether `s` is the NTFS OEM identifier.
fn is_oem_id(s: &[u8]) -> (r: bool)
    ensures
        r == (s@ == oem_id()),
{
    if s.len() != 8 {
        return false;
    }
    let r = s[0] == 0x4E && s[1] == 0x54 && s[2] == 0x46 && s[3] == 0x53 && s[4] == 0x20 && s[5]
        == 0x20 && s[6] == 0x20 && s[7] == 0x20;
    proof {
        if r {
            assert(s@ =~= oem_id());
        }
    }
    r
}

/// Parses an NTFS boot sector. Anything whose geometry could not describe
/// a real volume is rejected, so a non-NTFS partition or a garbage read
/// fails here rather than yielding offsets that send the reader to
/// arbitrary disk locations.
pub fn parse(buf: &[u8]) -> (r: Result<BootSector, NtfsError>)
    ensures
        r == boot_of(buf@),
{
    let oem = match slice_at(buf, 0x03, 8) {
        Ok(s) => s,
        Err(e) => return Err(e),
    };
    if !is_oem_id(oem) {
        return Err(NtfsError::BadMagic);
    }
    let bps16 = match u16_at(buf, 0x0B) {
        Ok(v) => v,
        Err(e) => return Err(e),
    };
    let bytes_per_sector = bps16 as u32;
    if !(bytes_per_sector == 256 || bytes_per_sector == 512 || bytes_per_sector == 1024
        || bytes_per_sector == 2048 || bytes_per_sector == 4096) {
        return Err(NtfsError::BadField("bytes per sector"));
    }
    let raw_spc = match u8_at(buf, 0x0D) {
        Ok(v) => v,
        Err(e) => return Err(e),
    };
    let sectors_per_cluster: u32 = if raw_spc > 0x80 {
        let shift = 256u32 - raw_spc as u32;
        if shift > 31 {
            return Err(NtfsError::BadField("sectors per cluster exponent"));
        }
        pow2_u32(shift)
    } else if raw_spc == 0 {
        return Err(NtfsError::BadField("sectors per cluster"));
    } else {
        raw_spc as u32
    };
    assert(bytes_per_sector as u64 * sectors_per_cluster as u64 <= 4096 * 0xFFFF_FFFF)
        by (nonlinear_arith)
        requires
            bytes_per_sector <= 4096,
    ;
    let bytes_per_cluster = bytes_per_sector as u64 * sectors_per_cluster as u64;
    let total_sectors = match u64_at(buf, 0x28) {
        Ok(v) => v,
        Err(e) => return Err(e),
    };
    let mft_lcn = match u64_at(buf, 0x30) {
        Ok(v) => v,
        Err(e) => return Err(e),
    };
    let raw_frs = match u8_at(buf, 0x40) {
        Ok(v) => v,
        Err(e) => return Err(e),
    };
    let bytes_per_record: u32 = if 1 <= raw_frs && raw_frs <= 127 {
        match (raw_frs as u64).checked_mul(bytes_per_cluster) {
            Some(v) if v <= 0xFFFF_FFFF => v as u32,
            _ => return Err(NtfsError::BadField("bytes per record")),
        }
    } else {
        let shift: u32 = if raw_frs == 0 {
            0
        } else {
            256u32 - raw_frs as u32
        };
        if shift < 9 || shift > 20 {
            return Err(NtfsError::BadField("record size exponent"));
        }
        pow2_u32(shift)
    };
    if bytes_per_record < 48 || bytes_per_record % bytes_per_sector != 0 {
        return Err(NtfsError::BadField("bytes per record"));
    }
    Ok(
        BootSector {
            bytes_per_sector,
            sectors_per_cluster,
            bytes_per_cluster,
            mft_lcn,
            bytes_per_record,
            total_sectors,
        },
    )
}

} // verus!
