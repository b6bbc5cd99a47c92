use spacetree::digest::{
    classify, find_by_name, folder_listing, largest_files, node_detail, reclaimable, scan_digest,
    type_breakdown, MAX_RESULT_CHARS,
};
use spacetree::export::{code_span, export_markdown, ExportOptions, ScanMeta, SortBy};
use spacetree::tree::{NodeId, RawNode, Tree, TreeBuilder, ROOT};
use spacetree::volume::VolumeInfo;
use spacetree::NodeFlags;

fn dir(parent: NodeId, name: &str) -> RawNode {
    RawNode {
        parent,
        name: name.to_string(),
        size_logical: 0,
        size_alloc: 0,
        mtime: 0,
        flags: NodeFlags::dir(),
    }
}

fn file(parent: NodeId, name: &str, size: u64) -> RawNode {
    RawNode {
        parent,
        name: name.to_string(),
        size_logical: size,
        size_alloc: size,
        mtime: 0,
        flags: NodeFlags::empty(),
    }
}

fn sample() -> (Tree, NodeId) {
    let mut b = TreeBuilder::new();
    let root = b.push(dir(ROOT, "C:"));
    let users = b.push(dir(root, "Users"));
    let proj = b.push(dir(users, "project"));
    b.push(dir(proj, "node_modules"));
    b.push(file(proj, "main.rs", 5_000));
    b.push(file(users, "movie.mkv", 8_000_000_000));
    let win = b.push(dir(root, "Windows"));
    b.push(dir(win, "WinSxS"));
    b.push(file(win, "hiberfil.sys", 3_000_000_000));
    (b.finalize(), root)
}

#[test]
fn a_listing_is_capped_and_says_what_it_dropped() {
    let mut b = TreeBuilder::new();
    let root = b.push(dir(ROOT, "root"));
    for i in 0..500 {
        b.push(file(root, &format!("f{i}.bin"), 1000 - i as u64));
    }
    let tree = b.finalize();

    let out = folder_listing(&tree, root, true, 10);
    assert_eq!(
        out.lines().filter(|l| l.starts_with('f')).count(),
        10,
        "must honour the row cap"
    );
    assert!(out.contains("490 more not shown"), "truncation must be stated, not silent:\n{out}");
}

#[test]
fn every_result_stays_within_the_character_budget() {
    let mut b = TreeBuilder::new();
    let root = b.push(dir(ROOT, "root"));
    for i in 0..5000 {
        b.push(file(root, &format!("a-very-long-file-name-number-{i}.bin"), 1));
    }
    let tree = b.finalize();

    // Even asking for far more rows than the budget allows.
    let out = folder_listing(&tree, root, true, 5000);
    assert!(
        out.len() <= MAX_RESULT_CHARS + 40,
        "result was {} chars, over the budget",
        out.len()
    );
    assert!(out.contains("truncated to fit"));
    assert!(out.ends_with('\n'), "must not cut mid-row");
}

#[test]
fn largest_files_reaches_deep_into_the_tree() {
    let (tree, root) = sample();
    let out = largest_files(&tree, root, true, 1_000_000, 10);
    assert!(out.contains("movie.mkv"), "a big file nested two levels down must be found:\n{out}");
    assert!(!out.contains("main.rs"), "files under the minimum must be excluded:\n{out}");
}

#[test]
fn dangerous_folders_are_flagged_as_such() {
    let winsxs = classify("WinSxS", true).expect("WinSxS must be recognised");
    assert!(!winsxs.generally_safe);
    assert!(winsxs.caution.contains("Never delete"));

    let installer = classify("Installer", true).expect("Installer must be recognised");
    assert!(!installer.generally_safe);

    let hib = classify("hiberfil.sys", false).expect("hiberfil must be recognised");
    assert!(!hib.generally_safe);
    assert!(hib.caution.contains("powercfg"));
}

#[test]
fn safe_caches_are_recognised_and_case_insensitive() {
    for name in ["node_modules", "NODE_MODULES", "Cache", "__pycache__", ".gradle"] {
        let v = classify(name, true).unwrap_or_else(|| panic!("{name} should be classified"));
        assert!(v.generally_safe, "{name} should read as generally safe");
    }
}

#[test]
fn a_file_named_like_a_cache_folder_is_not_classified_as_one() {
    // "cache" as a *file* is just a file; the folder rules must not
    // leak across, or the model gets told a random file is safe to bin.
    assert!(classify("cache", false).is_none());
    assert!(classify("node_modules", false).is_none());
}

#[test]
fn reclaimable_reports_both_safe_and_unsafe_candidates() {
    let (tree, root) = sample();
    let out = reclaimable(&tree, root, true, 20);
    assert!(out.contains("node_modules"), "{out}");
    assert!(out.contains("WinSxS"), "unsafe ones must still be listed:\n{out}");
    assert!(out.contains("DO NOT DELETE"), "unsafe candidates must carry the warning:\n{out}");
}

#[test]
fn nested_candidates_are_not_double_counted() {
    let mut b = TreeBuilder::new();
    let root = b.push(dir(ROOT, "root"));
    let nm = b.push(dir(root, "node_modules"));
    let inner = b.push(dir(nm, "cache"));
    b.push(file(inner, "blob", 1_000_000));
    let tree = b.finalize();

    let out = reclaimable(&tree, root, true, 20);
    assert!(out.contains("node_modules"));
    assert!(
        !out.contains("root/node_modules/cache"),
        "a cache inside node_modules would count its bytes twice:\n{out}"
    );
}

#[test]
fn the_digest_orients_without_any_tool_call() {
    let (tree, root) = sample();
    let out = scan_digest(&tree, root, None, true, 10, 5);
    assert!(out.contains("SCAN SUMMARY"));
    assert!(out.contains("Windows"), "top-level folders must appear:\n{out}");
    assert!(out.contains("LARGEST FILE TYPES"));
    assert!(out.len() < 4000, "the digest rides in every request; it was {} chars", out.len());
}

#[test]
fn find_by_name_totals_matches_across_the_tree() {
    let (tree, root) = sample();
    let out = find_by_name(&tree, root, "node_modules", true, 10);
    assert!(out.contains("1 matches") || out.contains("1 match"), "{out}");
}

#[test]
fn empty_and_missing_cases_do_not_panic() {
    let mut b = TreeBuilder::new();
    let root = b.push(dir(ROOT, "empty"));
    let tree = b.finalize();
    assert!(folder_listing(&tree, root, true, 10).contains("empty"));
    assert!(largest_files(&tree, root, true, 1, 10).contains("No files"));
    assert!(type_breakdown(&tree, root, true, 10).contains("no files"));
    assert!(find_by_name(&tree, root, "", true, 10).contains("empty search"));
}

#[test]
fn node_detail_describes_one_folder() {
    let (tree, root) = sample();
    let users = tree.children(root)[0];
    let out = node_detail(&tree, users, true);
    assert!(out.starts_with("Users: C:/Users\nkind: folder\n"), "{out}");
    assert!(out.contains("contains: 2 files"), "{out}");
    assert!(out.contains("direct children: 2"), "{out}");
}

#[test]
fn the_digest_reports_capacity_when_the_volume_is_known() {
    let (tree, root) = sample();
    let volume = VolumeInfo {
        label: "Disk".into(),
        filesystem: "NTFS".into(),
        total_bytes: 1 << 40,
        free_bytes: 1 << 39,
        cluster_bytes: 4096,
    };
    let out = scan_digest(&tree, root, Some(&volume), true, 10, 5);
    assert!(out.contains("1.0 TiB"), "{out}");
    assert!(out.contains("512.0 GiB"), "{out}");
}

// --- markdown export ---

fn edir(builder: &mut TreeBuilder, parent: u32, name: &str) -> u32 {
    builder.push(RawNode {
        parent,
        name: name.to_string(),
        size_logical: 0,
        size_alloc: 0,
        mtime: 0,
        flags: NodeFlags::dir(),
    })
}

fn efile(builder: &mut TreeBuilder, parent: u32, name: &str, size: u64) -> u32 {
    builder.push(RawNode {
        parent,
        name: name.to_string(),
        size_logical: size,
        size_alloc: size.div_ceil(4096) * 4096,
        mtime: 0,
        flags: NodeFlags::empty(),
    })
}

fn sample_tree() -> (Tree, u32) {
    let mut b = TreeBuilder::new();
    let c = edir(&mut b, ROOT, "C:");

    let users = edir(&mut b, c, "Users");
    let arpit = edir(&mut b, users, "arpit");

    let appdata = edir(&mut b, arpit, "AppData");
    let local = edir(&mut b, appdata, "Local");
    efile(&mut b, local, "cache.db", 900_000);
    let roaming = edir(&mut b, appdata, "Roaming");
    efile(&mut b, roaming, "settings.json", 2_000);

    let videos = edir(&mut b, arpit, "Videos");
    efile(&mut b, videos, "raw-capture-01.mp4", 5_000_000);
    for i in 0..4 {
        efile(&mut b, videos, &format!("clip-{i:02}.mp4"), 100_000);
    }

    let downloads = edir(&mut b, arpit, "Downloads");
    efile(&mut b, downloads, "installer.exe", 50_000);
    efile(&mut b, downloads, "readme", 100); // no extension

    let windows = edir(&mut b, c, "Windows");
    efile(&mut b, windows, "explorer.exe", 300_000);

    let program_files = edir(&mut b, c, "Program Files");
    efile(&mut b, program_files, "app.dll", 80_000);

    (b.finalize(), c)
}

fn meta(volume: Option<&VolumeInfo>) -> ScanMeta<'_> {
    ScanMeta {
        scanned_at: "2026-08-31 14:22:10 +05:30",
        engine: "Parallel walker",
        duration: "0.42 s",
        volume,
    }
}

#[test]
fn min_size_filter_drops_small_entries_from_the_tree_section() {
    let (tree, root) = sample_tree();
    let meta = meta(None);
    let mut opts = ExportOptions::default();
    opts.min_size = 1_000_000;
    opts.max_depth = None;
    opts.top_n = None;
    opts.largest_folders = 0;
    opts.largest_files = 0;

    let out = export_markdown(&tree, root, "\\", &meta, &opts);
    // Only raw-capture-01.mp4 (5,000,000 B) clears a 1 MB floor among files.
    assert!(out.contains("raw-capture-01.mp4"));
    assert!(!out.contains("clip-00.mp4"));
    assert!(!out.contains("settings.json"));
}

#[test]
fn by_type_output_is_stable_across_repeated_runs() {
    let (tree, root) = sample_tree();
    let meta = meta(None);
    let opts = ExportOptions::default();

    let first = export_markdown(&tree, root, "\\", &meta, &opts);
    for _ in 0..20 {
        let (tree, root) = sample_tree();
        let again = export_markdown(&tree, root, "\\", &meta, &opts);
        assert_eq!(first, again, "export output must not depend on iteration order");
    }
}

#[test]
fn folder_only_export_leaves_out_files_and_capacity() {
    let (tree, root) = sample_tree();
    let meta = meta(None);
    let opts = ExportOptions {
        max_depth: None,
        min_size: 0,
        include_files: false,
        top_n: None,
        sort_by: SortBy::Name,
        use_alloc: false,
        largest_folders: 3,
        largest_files: 3,
        by_type_limit: 5,
    };
    let out = export_markdown(&tree, root, "\\", &meta, &opts);
    assert!(!out.contains("**Capacity**"), "no volume info was given, so no capacity row");
    assert!(!out.contains(".mp4"), "include_files=false must drop every file row");
}

#[test]
fn full_drive_export_shows_capacity_and_collapses_extra_children() {
    let (tree, root) = sample_tree();
    let volume = VolumeInfo {
        label: "Windows-SSD".into(),
        filesystem: "NTFS".into(),
        total_bytes: 1_000_000_000,
        free_bytes: 200_000_000,
        cluster_bytes: 4096,
    };
    let meta = meta(Some(&volume));
    let opts = ExportOptions {
        max_depth: Some(4),
        min_size: 0,
        include_files: true,
        top_n: Some(2),
        sort_by: SortBy::Size,
        use_alloc: true,
        largest_folders: 5,
        largest_files: 5,
        by_type_limit: 10,
    };
    let out = export_markdown(&tree, root, "\\", &meta, &opts);
    assert!(out.contains("**Capacity**"), "{out}");
    assert!(out.contains("more items"), "{out}");
    assert!(out.contains("raw-capture-01.mp4"), "{out}");
}

#[test]
fn code_spans_escape_pipes() {
    assert_eq!(code_span("a|b"), "`a\\|b`");
    assert_eq!(code_span("plain"), "`plain`");
}
