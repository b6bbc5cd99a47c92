use spacetree::ntfs::boot::{self, BootSector};
use spacetree::ntfs::engine::{build_tree, decode_record, mft_extents, Index, MftError, TableScan};
use spacetree::ntfs::record::{apply_fixups, parse, unnamed_data_runlist, FileRecord};
use spacetree::ntfs::runlist::{self, Extent};
use spacetree::ntfs::{filetime_to_unix_secs, progress_contribution, slice_at, u16_at, u32_at, NtfsError};
use spacetree::NodeFlags;

// --- boot sector ---

const OEM_ID: &[u8] = b"NTFS    ";

/// A boot sector with the geometry of a typical NTFS volume:
/// 512-byte sectors, 8 sectors per cluster (4 KiB clusters), MFT at
/// cluster 786432, 1024-byte records.
fn sample_boot() -> Vec<u8> {
    let mut b = vec![0u8; 512];
    b[0x03..0x0B].copy_from_slice(OEM_ID);
    b[0x0B..0x0D].copy_from_slice(&512u16.to_le_bytes());
    b[0x0D] = 8;
    b[0x28..0x30].copy_from_slice(&2_000_000u64.to_le_bytes());
    b[0x30..0x38].copy_from_slice(&786_432u64.to_le_bytes());
    b[0x40] = (-10i8) as u8;
    b
}

#[test]
fn parses_a_typical_volume() {
    let bs: BootSector = boot::parse(&sample_boot()).unwrap();
    assert_eq!(bs.bytes_per_sector, 512);
    assert_eq!(bs.sectors_per_cluster, 8);
    assert_eq!(bs.bytes_per_cluster, 4096);
    assert_eq!(bs.mft_lcn, 786_432);
    assert_eq!(bs.bytes_per_record, 1024);
    assert_eq!(bs.mft_byte_offset(), Some(786_432 * 4096));
}

#[test]
fn rejects_a_non_ntfs_volume() {
    let mut b = sample_boot();
    b[0x03..0x0B].copy_from_slice(b"MSDOS5.0");
    assert_eq!(boot::parse(&b), Err(NtfsError::BadMagic));
}

#[test]
fn positive_record_size_is_read_as_clusters() {
    let mut b = sample_boot();
    b[0x40] = 1; // 1 cluster per record => 4096 bytes
    assert_eq!(boot::parse(&b).unwrap().bytes_per_record, 4096);
}

#[test]
fn large_cluster_exponent_encoding_is_handled() {
    let mut b = sample_boot();
    b[0x0D] = 0xF4; // 2^(256-244) = 4096 sectors per cluster
    b[0x40] = (-10i8) as u8;
    let bs = boot::parse(&b).unwrap();
    assert_eq!(bs.sectors_per_cluster, 4096);
    assert_eq!(bs.bytes_per_cluster, 512 * 4096);
}

#[test]
fn rejects_implausible_geometry_rather_than_computing_garbage_offsets() {
    let mut zero_sector = sample_boot();
    zero_sector[0x0B..0x0D].copy_from_slice(&0u16.to_le_bytes());
    assert!(boot::parse(&zero_sector).is_err());

    let mut odd_sector = sample_boot();
    odd_sector[0x0B..0x0D].copy_from_slice(&513u16.to_le_bytes());
    assert!(boot::parse(&odd_sector).is_err(), "sector size must be a power of two");

    let mut zero_spc = sample_boot();
    zero_spc[0x0D] = 0;
    assert!(boot::parse(&zero_spc).is_err());

    let mut tiny_record = sample_boot();
    tiny_record[0x40] = (-5i8) as u8; // 32 bytes, smaller than the header
    assert!(boot::parse(&tiny_record).is_err());
}

#[test]
fn truncated_buffer_errors_instead_of_panicking() {
    assert!(boot::parse(&[]).is_err());
    assert!(boot::parse(&sample_boot()[..0x20]).is_err());
}

// --- shared helpers ---

fn rec(size_alloc: u64) -> FileRecord {
    FileRecord {
        record_number: Some(42),
        in_use: true,
        is_dir: false,
        base_record: 0,
        hard_link_count: 1,
        name: Some("a.bin".into()),
        parent: Some(5),
        mtime: 0,
        size_logical: size_alloc,
        size_alloc,
        has_attribute_list: false,
    }
}

#[test]
fn progress_counts_file_bytes_only() {
    assert_eq!(progress_contribution(&rec(4096)), Some(4096));

    let mut dir = rec(4096);
    dir.is_dir = true;
    assert_eq!(
        progress_contribution(&dir),
        None,
        "a directory carries no bytes of its own; the rollup supplies its subtree total"
    );

    let mut deleted = rec(4096);
    deleted.in_use = false;
    assert_eq!(progress_contribution(&deleted), None, "a deleted record no longer occupies space");

    let mut extension = rec(4096);
    extension.base_record = 7;
    assert_eq!(
        progress_contribution(&extension),
        None,
        "an extension record's bytes belong to its base record and would double-count"
    );

    assert_eq!(progress_contribution(&rec(0)), Some(0), "an empty file is still a file");
}

#[test]
fn a_volume_of_records_totals_the_file_bytes() {
    let mut records = Vec::new();
    for _ in 0..1000 {
        records.push(rec(1_000_000));
    }
    for _ in 0..4000 {
        let mut d = rec(999);
        d.is_dir = true;
        records.push(d);
    }
    for _ in 0..2000 {
        let mut d = rec(999);
        d.in_use = false;
        records.push(d);
    }

    let total: u64 = records.iter().filter_map(progress_contribution).sum();
    let files = records.iter().filter_map(progress_contribution).count();
    assert_eq!(total, 1_000_000_000);
    assert_eq!(files, 1000);
}

#[test]
fn bounds_checked_reads_error_instead_of_panicking() {
    let buf = [1u8, 2, 3];
    assert!(u32_at(&buf, 0).is_err());
    assert!(u16_at(&buf, 2).is_err());
    assert_eq!(u16_at(&buf, 0).unwrap(), 0x0201);
    assert!(slice_at(&buf, usize::MAX, 8).is_err(), "offset+len overflow must not wrap");
}

#[test]
fn filetime_converts_and_clamps() {
    // 1970-01-01 exactly.
    assert_eq!(filetime_to_unix_secs(11_644_473_600 * 10_000_000), 0);
    // One hour later.
    assert_eq!(filetime_to_unix_secs((11_644_473_600 + 3600) * 10_000_000), 3600);
    // Unset timestamps in unused records must not become 1601.
    assert_eq!(filetime_to_unix_secs(0), 0);
}

#[test]
fn errors_describe_themselves() {
    assert_eq!(NtfsError::BadMagic.message(), "structure signature did not match");
    assert_eq!(
        NtfsError::OutOfBounds { offset: 4, len: 8, buf_len: 6 }.message(),
        "read of 8 bytes at offset 4 exceeds buffer of 6"
    );
}

// --- runlists ---

#[test]
fn empty_runlist_terminates_immediately() {
    assert_eq!(runlist::parse(&[0x00]).unwrap(), vec![]);
}

#[test]
fn single_run_decodes() {
    // 0x21: 1-byte length, 2-byte offset. length 0x28, LCN 0x0134.
    let buf = [0x21, 0x28, 0x34, 0x01, 0x00];
    assert_eq!(runlist::parse(&buf).unwrap(), vec![Extent { lcn: 0x0134, clusters: 0x28 }]);
}

#[test]
fn subsequent_offsets_are_deltas_from_the_previous_run() {
    // Run 1: len 0x10 at LCN 0x20. Run 2: len 0x10 at +0x10 => 0x30.
    let buf = [0x11, 0x10, 0x20, 0x11, 0x10, 0x10, 0x00];
    assert_eq!(
        runlist::parse(&buf).unwrap(),
        vec![Extent { lcn: 0x20, clusters: 0x10 }, Extent { lcn: 0x30, clusters: 0x10 }]
    );
}

#[test]
fn negative_delta_moves_backwards_on_disk() {
    let buf = [0x11, 0x10, 0x60, 0x11, 0x10, 0xE0, 0x00];
    assert_eq!(
        runlist::parse(&buf).unwrap(),
        vec![Extent { lcn: 0x60, clusters: 0x10 }, Extent { lcn: 0x40, clusters: 0x10 }]
    );
}

#[test]
fn sparse_run_contributes_no_extent() {
    // 0x01: 1-byte length, 0-byte offset => sparse hole of 0x30.
    let buf = [0x11, 0x10, 0x20, 0x01, 0x30, 0x11, 0x10, 0x10, 0x00];
    let extents = runlist::parse(&buf).unwrap();
    assert_eq!(
        extents,
        vec![Extent { lcn: 0x20, clusters: 0x10 }, Extent { lcn: 0x30, clusters: 0x10 }],
        "a hole has no clusters to read, but must not disturb the following delta"
    );
}

#[test]
fn wide_length_and_offset_fields_decode() {
    // 0x42: 2-byte length, 4-byte offset.
    let buf = [0x42, 0x00, 0x10, 0x00, 0x00, 0x01, 0x00, 0x00];
    assert_eq!(runlist::parse(&buf).unwrap(), vec![Extent { lcn: 0x0001_0000, clusters: 0x1000 }]);
}

#[test]
fn truncated_runlist_errors_instead_of_panicking() {
    assert!(runlist::parse(&[0x21, 0x28]).is_err(), "offset field is cut off");
    assert!(runlist::parse(&[0x21]).is_err());
    assert!(runlist::parse(&[]).is_err(), "no terminator and no data");
}

#[test]
fn nonsense_header_nibbles_are_rejected() {
    // Zero length-width with a non-zero header is not decodable.
    assert!(runlist::parse(&[0x10, 0x00]).is_err());
}

#[test]
fn eight_byte_negative_deltas_sign_extend() {
    // Run 1 at LCN 0x100, run 2 with an 8-byte delta of -0x10.
    let mut buf = vec![0x11, 0x01, 0x00];
    buf[2] = 0x7F;
    let mut two = vec![0x81, 0x01];
    two.extend_from_slice(&(-0x10i64).to_le_bytes());
    buf.extend_from_slice(&two);
    buf.push(0x00);
    assert_eq!(
        runlist::parse(&buf).unwrap(),
        vec![Extent { lcn: 0x7F, clusters: 1 }, Extent { lcn: 0x6F, clusters: 1 }]
    );
}

// --- FILE records ---

const MAGIC_FILE: &[u8] = b"FILE";
const FLAG_IN_USE: u16 = 0x0001;
const FLAG_DIRECTORY: u16 = 0x0002;
const ATTR_STANDARD_INFORMATION: u32 = 0x10;
const ATTR_ATTRIBUTE_LIST: u32 = 0x20;
const ATTR_FILE_NAME: u32 = 0x30;
const ATTR_DATA: u32 = 0x80;
const ATTR_END: u32 = 0xFFFF_FFFF;
const NAMESPACE_WIN32: u8 = 1;
const NAMESPACE_DOS: u8 = 2;

const SECTOR: u32 = 512;
const RECORD: usize = 1024;

/// Builds a FILE record the way NTFS lays one out.
struct RecordBuilder {
    buf: Vec<u8>,
    attrs: Vec<u8>,
    flags: u16,
}

impl RecordBuilder {
    fn new() -> Self {
        Self { buf: vec![0u8; RECORD], attrs: Vec::new(), flags: FLAG_IN_USE }
    }

    fn directory(mut self) -> Self {
        self.flags |= FLAG_DIRECTORY;
        self
    }

    fn not_in_use(mut self) -> Self {
        self.flags &= !FLAG_IN_USE;
        self
    }

    fn standard_information(mut self, mtime_filetime: u64) -> Self {
        let mut value = vec![0u8; 0x48];
        value[0x08..0x10].copy_from_slice(&mtime_filetime.to_le_bytes());
        self.attrs.extend(resident_attr(ATTR_STANDARD_INFORMATION, &value, false));
        self
    }

    fn file_name(mut self, name: &str, parent: u64, namespace: u8) -> Self {
        let units: Vec<u16> = name.encode_utf16().collect();
        let mut value = vec![0u8; 0x42 + units.len() * 2];
        value[0x00..0x08].copy_from_slice(&parent.to_le_bytes());
        value[0x40] = units.len() as u8;
        value[0x41] = namespace;
        for (i, u) in units.iter().enumerate() {
            value[0x42 + i * 2..0x44 + i * 2].copy_from_slice(&u.to_le_bytes());
        }
        self.attrs.extend(resident_attr(ATTR_FILE_NAME, &value, false));
        self
    }

    fn resident_data(mut self, contents: &[u8]) -> Self {
        self.attrs.extend(resident_attr(ATTR_DATA, contents, false));
        self
    }

    fn nonresident_data(mut self, real: u64, allocated: u64, start_vcn: u64) -> Self {
        self.attrs.extend(nonresident_attr(ATTR_DATA, real, allocated, start_vcn, false));
        self
    }

    fn data_with_runs(mut self, runs: &[u8]) -> Self {
        self.attrs.extend(nonresident_attr_with_runs(ATTR_DATA, 0, 0, 0, false, runs));
        self
    }

    fn named_stream(mut self, real: u64, allocated: u64) -> Self {
        self.attrs.extend(nonresident_attr(ATTR_DATA, real, allocated, 0, true));
        self
    }

    fn attribute_list(mut self) -> Self {
        self.attrs.extend(resident_attr(ATTR_ATTRIBUTE_LIST, &[0u8; 8], false));
        self
    }

    fn build(mut self) -> Vec<u8> {
        let first_attr = 0x38usize;
        self.buf[0x00..0x04].copy_from_slice(MAGIC_FILE);
        self.buf[0x04..0x06].copy_from_slice(&0x30u16.to_le_bytes()); // usa offset
        self.buf[0x06..0x08].copy_from_slice(&3u16.to_le_bytes()); // usn + 2 sectors
        self.buf[0x12..0x14].copy_from_slice(&1u16.to_le_bytes()); // hard links
        self.buf[0x14..0x16].copy_from_slice(&(first_attr as u16).to_le_bytes());
        self.buf[0x16..0x18].copy_from_slice(&self.flags.to_le_bytes());
        self.buf[0x2C..0x30].copy_from_slice(&42u32.to_le_bytes()); // record number

        let end = first_attr + self.attrs.len();
        self.buf[first_attr..end].copy_from_slice(&self.attrs);
        self.buf[end..end + 4].copy_from_slice(&ATTR_END.to_le_bytes());
        let used = (end + 4) as u32;
        self.buf[0x18..0x1C].copy_from_slice(&used.to_le_bytes());
        self.buf[0x1C..0x20].copy_from_slice(&(RECORD as u32).to_le_bytes());

        let usn: u16 = 0xBEEF;
        self.buf[0x30..0x32].copy_from_slice(&usn.to_le_bytes());
        for sector in 0..2usize {
            let footer = (sector + 1) * SECTOR as usize - 2;
            let saved = [self.buf[footer], self.buf[footer + 1]];
            self.buf[0x32 + sector * 2..0x34 + sector * 2].copy_from_slice(&saved);
            self.buf[footer..footer + 2].copy_from_slice(&usn.to_le_bytes());
        }
        self.buf
    }
}

fn resident_attr(attr_type: u32, value: &[u8], named: bool) -> Vec<u8> {
    let header = 0x18usize;
    let total = (header + value.len() + 7) & !7; // 8-byte aligned
    let mut a = vec![0u8; total];
    a[0x00..0x04].copy_from_slice(&attr_type.to_le_bytes());
    a[0x04..0x08].copy_from_slice(&(total as u32).to_le_bytes());
    a[0x08] = 0; // resident
    a[0x09] = if named { 4 } else { 0 };
    a[0x10..0x14].copy_from_slice(&(value.len() as u32).to_le_bytes());
    a[0x14..0x16].copy_from_slice(&(header as u16).to_le_bytes());
    a[header..header + value.len()].copy_from_slice(value);
    a
}

fn nonresident_attr(attr_type: u32, real: u64, allocated: u64, start_vcn: u64, named: bool) -> Vec<u8> {
    nonresident_attr_with_runs(attr_type, real, allocated, start_vcn, named, &[])
}

fn nonresident_attr_with_runs(
    attr_type: u32,
    real: u64,
    allocated: u64,
    start_vcn: u64,
    named: bool,
    runs: &[u8],
) -> Vec<u8> {
    let runlist_offset = 0x48usize;
    let total = ((runlist_offset + runs.len().max(1)) + 7) & !7;
    let mut a = vec![0u8; total];
    a[0x00..0x04].copy_from_slice(&attr_type.to_le_bytes());
    a[0x04..0x08].copy_from_slice(&(total as u32).to_le_bytes());
    a[0x08] = 1; // non-resident
    a[0x09] = if named { 4 } else { 0 };
    a[0x10..0x18].copy_from_slice(&start_vcn.to_le_bytes());
    a[0x20..0x22].copy_from_slice(&(runlist_offset as u16).to_le_bytes());
    a[0x28..0x30].copy_from_slice(&allocated.to_le_bytes());
    a[0x30..0x38].copy_from_slice(&real.to_le_bytes());
    a[runlist_offset..runlist_offset + runs.len()].copy_from_slice(runs);
    a
}

fn fixed_up(mut record: Vec<u8>) -> Vec<u8> {
    apply_fixups(&mut record, SECTOR).expect("fixups should apply");
    record
}

#[test]
fn fixups_restore_the_bytes_ntfs_stole_from_sector_footers() {
    let mut raw = RecordBuilder::new().resident_data(b"hello").build();
    assert_eq!(u16_at(&raw, SECTOR as usize - 2).unwrap(), 0xBEEF);
    apply_fixups(&mut raw, SECTOR).unwrap();
    assert_eq!(
        u16_at(&raw, SECTOR as usize - 2).unwrap(),
        0,
        "the saved bytes (zero padding here) should be back in place"
    );
}

#[test]
fn a_torn_record_is_detected_rather_than_parsed_as_garbage() {
    let mut raw = RecordBuilder::new().resident_data(b"hello").build();
    let footer = 2 * SECTOR as usize - 2;
    raw[footer..footer + 2].copy_from_slice(&0x1234u16.to_le_bytes());
    assert_eq!(apply_fixups(&mut raw, SECTOR), Err(NtfsError::FixupMismatch));
}

#[test]
fn parses_name_parent_and_mtime() {
    let filetime = (11_644_473_600u64 + 3600) * 10_000_000;
    let raw = fixed_up(
        RecordBuilder::new()
            .standard_information(filetime)
            .file_name("report.pdf", 5, NAMESPACE_WIN32)
            .nonresident_data(9000, 12288, 0)
            .build(),
    );
    let r = parse(&raw).unwrap();
    assert!(r.in_use);
    assert!(!r.is_dir);
    assert_eq!(r.name.as_deref(), Some("report.pdf"));
    assert_eq!(r.parent, Some(5));
    assert_eq!(r.mtime, 3600);
    assert_eq!(r.size_logical, 9000);
    assert_eq!(r.size_alloc, 12288);
    assert_eq!(r.record_number, Some(42));
}

#[test]
fn the_dos_short_name_never_wins_over_the_real_one() {
    let raw = fixed_up(
        RecordBuilder::new()
            .file_name("PROGRA~1", 5, NAMESPACE_DOS)
            .file_name("Program Files", 5, NAMESPACE_WIN32)
            .build(),
    );
    assert_eq!(parse(&raw).unwrap().name.as_deref(), Some("Program Files"));

    let raw = fixed_up(
        RecordBuilder::new()
            .file_name("Program Files", 5, NAMESPACE_WIN32)
            .file_name("PROGRA~1", 5, NAMESPACE_DOS)
            .build(),
    );
    assert_eq!(parse(&raw).unwrap().name.as_deref(), Some("Program Files"));
}

#[test]
fn a_dos_only_name_is_still_better_than_none() {
    let raw = fixed_up(RecordBuilder::new().file_name("READ~1.TXT", 5, NAMESPACE_DOS).build());
    assert_eq!(parse(&raw).unwrap().name.as_deref(), Some("READ~1.TXT"));
}

#[test]
fn resident_data_reports_no_on_disk_size() {
    let raw = fixed_up(
        RecordBuilder::new().file_name("tiny.txt", 5, NAMESPACE_WIN32).resident_data(b"12345").build(),
    );
    let r = parse(&raw).unwrap();
    assert_eq!(r.size_logical, 5);
    assert_eq!(r.size_alloc, 0);
}

#[test]
fn alternate_data_streams_add_to_the_owning_file() {
    let raw = fixed_up(
        RecordBuilder::new()
            .file_name("movie.mkv", 5, NAMESPACE_WIN32)
            .nonresident_data(1000, 4096, 0)
            .named_stream(500, 4096)
            .build(),
    );
    let r = parse(&raw).unwrap();
    assert_eq!(r.size_logical, 1500, "ADS bytes belong to the file");
    assert_eq!(r.size_alloc, 8192);
}

#[test]
fn later_fragments_of_a_split_stream_do_not_double_count() {
    let raw = fixed_up(
        RecordBuilder::new()
            .file_name("huge.bin", 5, NAMESPACE_WIN32)
            .nonresident_data(100_000, 102_400, 0)
            .nonresident_data(100_000, 102_400, 64)
            .build(),
    );
    let r = parse(&raw).unwrap();
    assert_eq!(r.size_logical, 100_000);
    assert_eq!(r.size_alloc, 102_400);
}

#[test]
fn directories_report_no_size_of_their_own() {
    let raw = fixed_up(
        RecordBuilder::new()
            .directory()
            .file_name("Windows", 5, NAMESPACE_WIN32)
            .nonresident_data(4096, 4096, 0)
            .build(),
    );
    let r = parse(&raw).unwrap();
    assert!(r.is_dir);
    assert_eq!(r.size_logical, 0);
    assert_eq!(r.size_alloc, 0);
}

#[test]
fn unused_records_are_reported_without_walking_stale_attributes() {
    let raw = fixed_up(RecordBuilder::new().not_in_use().file_name("deleted.txt", 5, NAMESPACE_WIN32).build());
    let r = parse(&raw).unwrap();
    assert!(!r.in_use);
    assert_eq!(r.name, None);
}

#[test]
fn attribute_list_presence_is_reported() {
    let raw = fixed_up(
        RecordBuilder::new().file_name("frag.bin", 5, NAMESPACE_WIN32).attribute_list().build(),
    );
    assert!(parse(&raw).unwrap().has_attribute_list);
}

#[test]
fn malformed_records_error_or_stop_instead_of_panicking_or_looping() {
    assert!(parse(&[]).is_err());
    assert_eq!(parse(&[0u8; 1024]), Err(NtfsError::BadMagic));

    let mut raw = fixed_up(RecordBuilder::new().file_name("a.txt", 5, NAMESPACE_WIN32).build());
    let first_attr = u16_at(&raw, 0x14).unwrap() as usize;
    raw[first_attr + 4..first_attr + 8].copy_from_slice(&0u32.to_le_bytes());
    let r = parse(&raw).expect("must return, not hang");
    assert_eq!(r.name, None);

    let mut raw = fixed_up(RecordBuilder::new().file_name("a.txt", 5, NAMESPACE_WIN32).build());
    raw[first_attr + 4..first_attr + 8].copy_from_slice(&0xFFFF_FFFFu32.to_le_bytes());
    assert!(parse(&raw).is_ok());

    let raw = fixed_up(RecordBuilder::new().file_name("a.txt", 5, NAMESPACE_WIN32).build());
    assert!(parse(&raw[..64]).is_ok(), "short buffer clamps the walk rather than over-reading");
}

#[test]
fn the_mft_own_runlist_is_extractable() {
    let runs = [0x21u8, 0x28, 0x34, 0x01, 0x00];
    let raw = fixed_up(RecordBuilder::new().data_with_runs(&runs).build());
    let extracted = unnamed_data_runlist(&raw).unwrap().expect("record has a $DATA runlist");
    assert_eq!(&extracted[..runs.len()], &runs);
    assert_eq!(runlist::parse(extracted).unwrap(), vec![Extent { lcn: 0x0134, clusters: 0x28 }]);
}

#[test]
fn a_record_without_nonresident_data_has_no_runlist() {
    let raw = fixed_up(RecordBuilder::new().resident_data(b"inline").build());
    assert_eq!(unnamed_data_runlist(&raw).unwrap(), None);
}

#[test]
fn a_named_stream_runlist_is_not_mistaken_for_the_main_one() {
    let raw = fixed_up(RecordBuilder::new().named_stream(10, 4096).build());
    assert_eq!(unnamed_data_runlist(&raw).unwrap(), None);
}

#[test]
fn fixup_rejects_arrays_that_do_not_fit_the_record() {
    let mut raw = RecordBuilder::new().build();
    raw[0x06..0x08].copy_from_slice(&999u16.to_le_bytes());
    assert!(apply_fixups(&mut raw, SECTOR).is_err());

    let mut raw = RecordBuilder::new().build();
    raw[0x06..0x08].copy_from_slice(&0u16.to_le_bytes());
    assert!(apply_fixups(&mut raw, SECTOR).is_err());
}

// --- reading the table ---

#[test]
fn the_table_extents_come_from_the_mft_record() {
    let runs = [0x21u8, 0x28, 0x34, 0x01, 0x00];
    let mut raw = RecordBuilder::new().data_with_runs(&runs).build();
    assert_eq!(mft_extents(&mut raw, SECTOR), Ok(vec![Extent { lcn: 0x0134, clusters: 0x28 }]));

    let mut no_runs = RecordBuilder::new().resident_data(b"x").build();
    assert_eq!(mft_extents(&mut no_runs, SECTOR), Err(MftError::NoDataRuns));

    let mut empty = RecordBuilder::new().data_with_runs(&[0x00]).build();
    assert_eq!(mft_extents(&mut empty, SECTOR), Err(MftError::EmptyRunlist));

    let mut torn = RecordBuilder::new().data_with_runs(&runs).build();
    torn[2 * SECTOR as usize - 2] ^= 1;
    assert_eq!(mft_extents(&mut torn, SECTOR), Err(MftError::Ntfs(NtfsError::FixupMismatch)));
}

#[test]
fn decoding_a_record_repairs_then_parses_it() {
    let mut raw = RecordBuilder::new().file_name("x.txt", 5, NAMESPACE_WIN32).build();
    let r = decode_record(&mut raw, SECTOR).expect("a good record decodes");
    assert_eq!(r.name.as_deref(), Some("x.txt"));
    let mut junk = vec![0u8; RECORD];
    assert!(decode_record(&mut junk, SECTOR).is_none());
}

fn named(name: &str, parent: u64, dir: bool) -> Vec<u8> {
    let b = RecordBuilder::new().file_name(name, parent, NAMESPACE_WIN32);
    let b = if dir { b.directory() } else { b.nonresident_data(1000, 4096, 0) };
    b.build()
}

/// A small table: the root (5) holds `Users` (6), which holds `a.txt`
/// (7); record 8 is a file whose parent is a file (7), so it is not
/// reachable through directories and is detached under `<unlinked>`.
fn small_table() -> Vec<u8> {
    let mut table = Vec::new();
    for i in 0..9u64 {
        let r = match i {
            5 => named(".", 5, true),
            6 => named("Users", 5, true),
            7 => named("a.txt", 6, false),
            8 => named("b.txt", 7, false),
            _ => vec![0u8; RECORD],
        };
        table.extend_from_slice(&r);
    }
    table
}

#[test]
fn the_hierarchy_is_rebuilt_from_parent_pointers() {
    let mut scan = TableScan::new(Index::new(8), RECORD, SECTOR);
    scan.take(&small_table());
    assert_eq!(scan.files_seen(), 2);
    assert_eq!(scan.bytes_seen(), 9 * RECORD as u64);
    let index = scan.into_index();
    let (tree, root) = build_tree(&index, 'c');
    assert_eq!(root, 1);
    assert_eq!(tree.name(root), "C:\\");
    assert_eq!(
        tree.node_count(),
        6,
        "synthetic root, drive, Users, a.txt, the stray b.txt and <unlinked>"
    );
    let users = tree.children(root)[0];
    assert_eq!(tree.name(users), "Users");
    let a = tree.children(users)[0];
    assert_eq!(tree.name(a), "a.txt");
    assert_eq!(tree.subtree_logical(root), 1000);
    assert_eq!(tree.subtree_alloc(root), 4096);
}

#[test]
fn a_record_outside_the_hierarchy_is_detached_not_dropped() {
    let mut scan = TableScan::new(Index::new(8), RECORD, SECTOR);
    scan.take(&small_table());
    let (tree, root) = build_tree(&scan.into_index(), 'c');
    let top: Vec<&str> = tree.children(0).iter().map(|&id| tree.name(id)).collect();
    assert_eq!(top, vec!["C:\\", "<unlinked>"]);
    let unlinked = tree.children(0)[1];
    assert!(tree.is_dir(unlinked));
    let strays = tree.children(unlinked);
    assert_eq!(strays.len(), 1);
    let b = strays[0];
    assert_eq!(tree.name(b), "b.txt");
    assert!(tree.flags(b).contains(NodeFlags::orphan()));
    assert_eq!(tree.subtree_logical(unlinked), 1000, "its bytes roll up under <unlinked>");
    assert_eq!(tree.subtree_logical(0), 2000, "no bytes are lost");
    assert!(!tree.flags(root).contains(NodeFlags::orphan()));
}

#[test]
fn a_record_split_across_reads_still_parses() {
    let table = small_table();
    let mut whole = TableScan::new(Index::new(8), RECORD, SECTOR);
    whole.take(&table);
    let mut pieces = TableScan::new(Index::new(8), RECORD, SECTOR);
    for chunk in table.chunks(700) {
        pieces.take(chunk);
    }
    assert_eq!(pieces.files_seen(), whole.files_seen());
    assert_eq!(pieces.bytes_seen(), whole.bytes_seen());
    let (a, _) = build_tree(&whole.into_index(), 'd');
    let (b, _) = build_tree(&pieces.into_index(), 'd');
    assert_eq!(a.node_count(), b.node_count());
    assert_eq!(a.subtree_logical(1), b.subtree_logical(1));
}

#[test]
fn an_unreadable_region_keeps_record_numbers_aligned() {
    let table = small_table();
    let mut scan = TableScan::new(Index::new(8), RECORD, SECTOR);
    scan.take(&table[..5 * RECORD]);
    scan.skip(RECORD); // record 5 (the root) could not be read
    scan.take(&table[6 * RECORD..]);
    let (tree, root) = build_tree(&scan.into_index(), 'e');
    // Records 6.. kept their numbers, so Users still hangs under the root
    // record's number and a.txt under Users.
    assert_eq!(tree.node_count(), 6);
    let users = tree.children(root)[0];
    assert_eq!(tree.name(users), "Users");
    assert_eq!(tree.name(tree.children(users)[0]), "a.txt");
}

#[test]
fn a_table_without_a_root_record_yields_just_the_drive() {
    let (tree, root) = build_tree(&Index::new(2), 'z');
    assert_eq!(tree.node_count(), 2);
    assert_eq!(tree.name(root), "Z:\\");
}
