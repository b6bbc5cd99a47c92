use spacetree::tree::{TreeBuilder, ROOT, RawNode};
use spacetree::walker::{collect, counts_as_file, entry_of, found_entry, Entry, RawDirEntry};
use spacetree::NodeFlags;

fn raw(name: &str, is_dir: bool, is_symlink: bool, size: u64, key: Option<(u64, u64)>) -> RawDirEntry {
    RawDirEntry {
        name: name.to_string(),
        is_dir,
        is_symlink,
        size_logical: size,
        size_alloc: size + 100,
        mtime: 7,
        hardlink_key: key,
    }
}

#[test]
fn files_keep_their_sizes_and_directories_recurse() {
    let f = entry_of(raw("a.txt", false, false, 10, None), false);
    assert_eq!((f.size_logical, f.size_alloc, f.recurse), (10, 110, false));
    assert_eq!(f.flags.bits(), 0);

    let d = entry_of(raw("sub", true, false, 4096, None), false);
    assert_eq!((d.size_logical, d.size_alloc, d.recurse), (0, 0, true));
    assert!(d.flags.contains(NodeFlags::dir()));
}

#[test]
fn symlinks_are_recorded_but_never_followed() {
    let l = entry_of(raw("link", true, true, 99, None), false);
    assert!(!l.recurse);
    assert_eq!((l.size_logical, l.size_alloc), (0, 0));
    assert!(l.flags.contains(NodeFlags::reparse()));
    assert!(l.flags.contains(NodeFlags::dir()));
}

#[test]
fn a_hard_link_seen_before_counts_no_bytes() {
    let first = entry_of(raw("one", false, false, 50, Some((1, 2))), false);
    assert_eq!(first.size_logical, 50);
    let again = entry_of(raw("two", false, false, 50, Some((1, 2))), true);
    assert_eq!((again.size_logical, again.size_alloc), (0, 0));
    assert!(again.flags.contains(NodeFlags::hardlink_dup()));
    // Without a key, an earlier sighting means nothing.
    let plain = entry_of(raw("three", false, false, 50, None), true);
    assert_eq!(plain.size_logical, 50);
}

#[test]
fn only_non_directories_count_as_files() {
    assert!(counts_as_file(&raw("f", false, false, 1, None)));
    assert!(!counts_as_file(&raw("d", true, false, 1, None)));
}

#[test]
fn a_listing_is_pushed_under_its_directory() {
    let mut b = TreeBuilder::new();
    let root = b.push(RawNode {
        parent: ROOT,
        name: "scan".to_string(),
        size_logical: 0,
        size_alloc: 0,
        mtime: 0,
        flags: NodeFlags::dir(),
    });
    let entries: Vec<Entry> = vec![
        entry_of(raw("a.txt", false, false, 10, None), false),
        entry_of(raw("sub", true, false, 0, None), false),
        entry_of(raw("link", true, true, 0, None), false),
    ];
    let ids = collect(&mut b, root, entries, false);
    assert_eq!(ids, vec![root + 2], "only the real directory is walked next");
    let more = collect(&mut b, root + 2, vec![entry_of(raw("b.bin", false, false, 5, None), false)], true);
    assert!(more.is_empty());
    let tree = b.finalize();
    assert_eq!(tree.subtree_logical(root), 15);
    assert!(tree.flags(root + 2).contains(NodeFlags::access_denied()));
    assert_eq!(tree.name(tree.children(root + 2)[0]), "b.bin");
}

fn name_buf(name: &str) -> Vec<u16> {
    let mut b: Vec<u16> = name.encode_utf16().collect();
    b.resize(260, 0);
    b
}

#[test]
fn a_search_result_becomes_an_entry() {
    // 2026-01-01 00:00:00 UTC as a FILETIME: (1767225600 + 11644473600) * 10^7.
    let ft: u64 = (1_767_225_600 + 11_644_473_600) * 10_000_000;
    let e = found_entry(&name_buf("report.pdf"), 0x20, 1, 5, (ft >> 32) as u32, ft as u32).unwrap();
    assert_eq!(e.name, "report.pdf");
    assert!(!e.is_dir && !e.is_symlink);
    assert_eq!(e.size_logical, (1u64 << 32) + 5);
    assert_eq!(e.size_alloc, e.size_logical);
    assert_eq!(e.mtime, 1_767_225_600);
    assert!(e.hardlink_key.is_none());
}

#[test]
fn folders_and_reparse_points_carry_no_bytes_in_a_search_result() {
    let d = found_entry(&name_buf("src"), 0x10, 0, 4096, 0, 0).unwrap();
    assert!(d.is_dir && !d.is_symlink);
    assert_eq!(d.size_logical, 0);
    let j = found_entry(&name_buf("link"), 0x410, 0, 99, 0, 0).unwrap();
    assert!(j.is_dir && j.is_symlink);
    assert_eq!(j.size_alloc, 0);
    let f = found_entry(&name_buf("cloud.docx"), 0x400, 0, 99, 0, 0).unwrap();
    assert_eq!(f.size_logical, 0);
    assert_eq!(f.mtime, 0, "a time before 1970 reads as 0");
}

#[test]
fn dot_entries_and_nameless_results_are_skipped() {
    assert!(found_entry(&name_buf("."), 0x10, 0, 0, 0, 0).is_none());
    assert!(found_entry(&name_buf(".."), 0x10, 0, 0, 0, 0).is_none());
    assert!(found_entry(&name_buf(""), 0x20, 0, 0, 0, 0).is_none());
    assert!(found_entry(&name_buf("...")[..], 0x20, 0, 0, 0, 0).is_some());
    // A name filling the whole buffer has no NUL and is taken whole.
    let full: Vec<u16> = "a".repeat(260).encode_utf16().collect();
    assert_eq!(found_entry(&full, 0x20, 0, 1, 0, 0).unwrap().name.len(), 260);
}
