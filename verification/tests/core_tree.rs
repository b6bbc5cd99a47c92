use spacetree::fmt::{bytes, count, percent};
use spacetree::search::{glob_match, search};
use spacetree::tree::{NodeId, RawNode, Tree, TreeBuilder, ROOT};
use spacetree::volume::VolumeInfo;
use spacetree::NodeFlags;

fn dir(parent: NodeId, name: &str) -> RawNode {
    RawNode {
        parent,
        name: name.to_string(),
        size_logical: 0,
        size_alloc: 0,
        mtime: 0,
        flags: NodeFlags::dir(),
    }
}

fn file(parent: NodeId, name: &str, size: u64) -> RawNode {
    RawNode {
        parent,
        name: name.to_string(),
        size_logical: size,
        // simulate 4 KiB cluster rounding, like a real filesystem
        size_alloc: size.div_ceil(4096) * 4096,
        mtime: 0,
        flags: NodeFlags::empty(),
    }
}

fn sample() -> (Tree, NodeId, NodeId, NodeId) {
    let mut b = TreeBuilder::new();
    let c = b.push(dir(ROOT, "C:"));
    let users = b.push(dir(c, "Users"));
    b.push(file(users, "a.txt", 1));
    let windows = b.push(dir(c, "Windows"));
    b.push(file(windows, "b.bin", 9000));
    (b.finalize(), c, users, windows)
}

#[test]
fn rollup_sums_subtree_bytes_and_file_counts() {
    let (tree, c, users, windows) = sample();
    assert_eq!(tree.subtree_logical(users), 1);
    assert_eq!(tree.subtree_alloc(users), 4096);
    assert_eq!(tree.file_count(users), 1);

    assert_eq!(tree.subtree_logical(windows), 9000);
    assert_eq!(tree.subtree_alloc(windows), 12288);
    assert_eq!(tree.file_count(windows), 1);

    assert_eq!(tree.subtree_logical(c), 9001);
    assert_eq!(tree.subtree_alloc(c), 4096 + 12288);
    assert_eq!(tree.file_count(c), 2);
}

#[test]
fn directories_have_zero_own_size() {
    let (tree, c, ..) = sample();
    assert_eq!(tree.size_logical(c), 0);
    assert_eq!(tree.size_alloc(c), 0);
}

#[test]
fn children_are_returned_via_csr_slice() {
    let (tree, c, users, windows) = sample();
    let mut kids = tree.children(c).to_vec();
    kids.sort();
    let mut expected = vec![users, windows];
    expected.sort();
    assert_eq!(kids, expected);
}

#[test]
fn children_sorted_by_size_is_largest_first() {
    let (tree, c, _users, windows) = sample();
    let sorted = tree.children_sorted_by_size(c);
    // Windows (12 KiB on disk) outweighs Users (4 KiB).
    assert_eq!(sorted[0], windows);
}

#[test]
fn leaf_has_no_children() {
    let (tree, _c, users, _windows) = sample();
    let a_txt = tree.children(users)[0];
    assert!(tree.children(a_txt).is_empty());
    assert!(!tree.is_dir(a_txt));
}

#[test]
fn path_joins_from_root_without_leading_separator() {
    let (tree, _c, users, _windows) = sample();
    let a_txt = tree.children(users)[0];
    assert_eq!(tree.path(a_txt, "\\"), "C:\\Users\\a.txt");
}

#[test]
fn empty_builder_finalizes_to_a_bare_root() {
    let tree = TreeBuilder::new().finalize();
    assert_eq!(tree.node_count(), 1);
    assert_eq!(tree.subtree_logical(ROOT), 0);
    assert!(tree.children(ROOT).is_empty());
}

#[test]
fn out_of_range_parent_is_reattached_under_unlinked_not_dropped() {
    let mut b = TreeBuilder::new();
    // Reference a parent id (42) that was never pushed.
    let orphan = b.push(file(42, "ghost.txt", 500));
    let tree = b.finalize();

    assert!(tree.flags(orphan).contains(NodeFlags::orphan()));
    let unlinked = tree.parent_of(orphan).expect("orphan must have a parent");
    assert_eq!(tree.name(unlinked), "<unlinked>");
    // The bytes are not lost: they still roll up into <unlinked>.
    assert_eq!(tree.subtree_logical(unlinked), 500);
    assert!(tree.children(ROOT).contains(&unlinked));
}

#[test]
fn self_referential_parent_is_reattached_not_infinite_looped() {
    let mut b = TreeBuilder::new();
    // Simulate a corrupt record claiming itself as its own parent by
    // pushing with a parent id equal to the id it's about to receive.
    let next_id = b.len() as NodeId;
    let looped = b.push(dir(next_id, "weird"));
    assert_eq!(looped, next_id);
    let tree = b.finalize();
    assert!(tree.flags(looped).contains(NodeFlags::orphan()));
    assert_eq!(tree.name(tree.parent_of(looped).unwrap()), "<unlinked>");
}

#[test]
fn extension_breakdown_is_scoped_to_the_given_root_not_the_whole_tree() {
    let mut b = TreeBuilder::new();
    let c = b.push(dir(ROOT, "C:"));
    let a = b.push(dir(c, "A"));
    b.push(file(a, "one.txt", 10));
    let outside = b.push(dir(c, "Outside"));
    b.push(file(outside, "two.txt", 20));
    let tree = b.finalize();

    let scoped = tree.extension_breakdown(a);
    assert_eq!(scoped.len(), 1);
    let txt = &scoped.iter().find(|(k, _)| k == "txt").unwrap().1;
    assert_eq!(txt.files, 1);
    assert_eq!(txt.logical, 10);
}

#[test]
fn descendants_includes_root_itself() {
    let (tree, c, users, windows) = sample();
    let all: Vec<NodeId> = tree.descendants(c);
    assert!(all.contains(&c));
    assert!(all.contains(&users));
    assert!(all.contains(&windows));
    assert_eq!(all.len(), 5); // C:, Users, a.txt, Windows, b.bin
}

#[test]
fn subtree_totals_equal_the_sum_over_descendants() {
    let (tree, c, _users, _windows) = sample();
    let all = tree.descendants(c);
    let logical: u64 = all.iter().map(|&v| tree.size_logical(v)).sum();
    let alloc: u64 = all.iter().map(|&v| tree.size_alloc(v)).sum();
    assert_eq!(tree.subtree_logical(c), logical);
    assert_eq!(tree.subtree_alloc(c), alloc);
    assert_eq!(tree.subtree_logical(ROOT), 9001);
}

#[test]
fn try_finalize_refuses_totals_beyond_u64() {
    let mut b = TreeBuilder::new();
    b.push(file(ROOT, "a", u64::MAX));
    b.push(file(ROOT, "b", 1));
    assert!(b.try_finalize().is_none());
    let mut ok = TreeBuilder::new();
    ok.push(file(ROOT, "a", 7));
    let tree = ok.try_finalize().expect("small totals finalize");
    assert_eq!(tree.subtree_logical(ROOT), 7);
}

// --- number formatting ---

#[test]
fn bytes_render_in_binary_units() {
    assert_eq!(bytes(0), "0 B");
    assert_eq!(bytes(1023), "1023 B");
    assert_eq!(bytes(1024), "1.0 KiB");
    assert_eq!(bytes(1536), "1.5 KiB");
    assert_eq!(bytes(1024 * 1024 * 1024), "1.0 GiB");
}

#[test]
fn counts_are_grouped() {
    assert_eq!(count(0), "0");
    assert_eq!(count(999), "999");
    assert_eq!(count(1000), "1,000");
    assert_eq!(count(1_842_109), "1,842,109");
}

#[test]
fn percent_of_zero_is_not_nan() {
    assert_eq!(percent(5, 0), "0.0%");
    assert_eq!(percent(1, 2), "50.0%");
}

const UNITS: [&str; 7] = ["B", "KiB", "MiB", "GiB", "TiB", "PiB", "EiB"];

fn bytes_by_float(n: u64) -> String {
    if n < 1024 {
        return format!("{n} B");
    }
    let mut v = n as f64;
    let mut u = 0;
    while v >= 1024.0 && u < UNITS.len() - 1 {
        v /= 1024.0;
        u += 1;
    }
    format!("{:.1} {}", v, UNITS[u])
}

fn percent_by_float(part: u64, whole: u64) -> String {
    if whole == 0 {
        return "0.0%".to_string();
    }
    format!("{:.1}%", part as f64 * 100.0 / whole as f64)
}

#[test]
fn bytes_agree_with_float_formatting_across_magnitudes() {
    let mut samples: Vec<u64> = vec![
        1024, 1025, 1075, 1076, 1126, 1127, 1535, 1536, 1537, 10239, 10240, 1048575, 1048576,
        1099511627775, u64::MAX, u64::MAX - 1, 1 << 63, (1 << 63) + 1,
    ];
    let mut x: u64 = 0x9e37_79b9_7f4a_7c15;
    for _ in 0..20000 {
        x ^= x << 13;
        x ^= x >> 7;
        x ^= x << 17;
        samples.push(x >> (x % 64));
        samples.push((x % 5000) * 1024 / 20 + 1024);
    }
    for n in samples {
        assert_eq!(bytes(n), bytes_by_float(n), "bytes({n})");
    }
}

#[test]
fn percent_agrees_with_float_formatting() {
    let mut x: u64 = 0x1234_5678_9abc_def1;
    let mut pairs: Vec<(u64, u64)> = vec![(1, 2), (1, 3), (2, 3), (1, 8), (3, 8), (5, 16), (1, 1000), (0, 7), (7, 7), (u64::MAX, u64::MAX), (1, u64::MAX)];
    for _ in 0..20000 {
        x ^= x << 13;
        x ^= x >> 7;
        x ^= x << 17;
        let whole = (x >> (x % 64)).max(1);
        let part = x.wrapping_mul(31) % (whole.saturating_add(1));
        pairs.push((part, whole));
        pairs.push((x % 2001, 2000));
    }
    for (p, w) in pairs {
        assert_eq!(percent(p, w), percent_by_float(p, w), "percent({p}, {w})");
    }
}

// --- search ---

fn sdir(b: &mut TreeBuilder, parent: NodeId, name: &str) -> NodeId {
    b.push(RawNode {
        parent,
        name: name.into(),
        size_logical: 0,
        size_alloc: 0,
        mtime: 0,
        flags: NodeFlags::dir(),
    })
}

fn sfile(b: &mut TreeBuilder, parent: NodeId, name: &str) -> NodeId {
    b.push(RawNode {
        parent,
        name: name.into(),
        size_logical: 1,
        size_alloc: 4096,
        mtime: 0,
        flags: NodeFlags::empty(),
    })
}

fn search_sample() -> (Tree, NodeId) {
    let mut b = TreeBuilder::new();
    let root = sdir(&mut b, ROOT, "root");
    let videos = sdir(&mut b, root, "Videos");
    sfile(&mut b, videos, "capture.mp4");
    sfile(&mut b, videos, "CAPTURE-2.MP4");
    sfile(&mut b, videos, "readme.txt");
    let docs = sdir(&mut b, root, "Documents");
    sfile(&mut b, docs, "notes.txt");
    (b.finalize(), root)
}

#[test]
fn empty_query_matches_nothing() {
    let (tree, root) = search_sample();
    assert!(search(&tree, root, "").is_empty());
}

#[test]
fn substring_search_is_case_insensitive() {
    let (tree, root) = search_sample();
    let hits = search(&tree, root, "capture");
    assert_eq!(hits.len(), 2, "should match both capture.mp4 and CAPTURE-2.MP4");
}

#[test]
fn extension_glob_matches_regardless_of_case() {
    let (tree, root) = search_sample();
    let hits = search(&tree, root, "*.mp4");
    assert_eq!(hits.len(), 2);
    for id in hits {
        assert!(tree.name(id).to_lowercase().ends_with(".mp4"));
    }
}

#[test]
fn glob_with_wildcard_in_the_middle_matches() {
    let (tree, root) = search_sample();
    let hits = search(&tree, root, "cap*mp4");
    assert_eq!(hits.len(), 2);
}

#[test]
fn search_is_scoped_to_the_given_root() {
    let (tree, root) = search_sample();
    let videos = tree
        .children(root)
        .iter()
        .copied()
        .find(|&id| tree.name(id) == "Videos")
        .unwrap();
    // "notes.txt" lives under Documents, a sibling of Videos.
    assert!(search(&tree, videos, "notes").is_empty());
    assert_eq!(search(&tree, root, "notes").len(), 1);
}

#[test]
fn plain_query_with_no_wildcard_does_not_match_as_glob() {
    let (tree, root) = search_sample();
    // "readme.txt" contains "me.t" as a literal substring.
    assert_eq!(search(&tree, root, "me.t").len(), 1);
}

#[test]
fn glob_matching_handles_stars_anywhere() {
    assert!(glob_match("*.mp4", "capture.mp4"));
    assert!(!glob_match("*.mp4", "capture.mp3"));
    assert!(glob_match("a*b*c", "aXXbYYc"));
    assert!(!glob_match("a*b*c", "aXXbYY"));
    assert!(glob_match("*", ""));
    assert!(glob_match("**", "anything"));
    assert!(!glob_match("", "x"));
}

// --- volumes ---

#[test]
fn used_is_total_minus_free() {
    let v = VolumeInfo {
        label: "C:".into(),
        filesystem: "NTFS".into(),
        total_bytes: 1000,
        free_bytes: 300,
        cluster_bytes: 4096,
    };
    assert_eq!(v.used_bytes(), 700);
}

#[test]
fn used_saturates_rather_than_underflows_on_bad_input() {
    let v = VolumeInfo {
        label: "C:".into(),
        filesystem: "NTFS".into(),
        total_bytes: 100,
        free_bytes: 300,
        cluster_bytes: 4096,
    };
    assert_eq!(v.used_bytes(), 0);
}

#[test]
fn names_below_lead_from_an_ancestor_down_to_a_node() {
    let mut b = TreeBuilder::new();
    let c = b.push(dir(ROOT, "C:"));
    let users = b.push(dir(c, "Users"));
    let me = b.push(dir(users, "me"));
    let doc = b.push(file(me, "doc.txt", 10));
    let other = b.push(dir(c, "Windows"));
    let t = b.finalize();
    assert_eq!(t.names_below(users, doc), Some(vec!["me".to_string(), "doc.txt".to_string()]));
    assert_eq!(t.names_below(c, doc), Some(vec!["Users".to_string(), "me".to_string(), "doc.txt".to_string()]));
    assert_eq!(t.names_below(doc, doc), Some(vec![]));
    assert_eq!(t.names_below(other, doc), None, "not an ancestor");
    assert_eq!(t.names_below(doc, users), None, "below, not above");
    assert_eq!(t.names_below(ROOT, users), Some(vec!["C:".to_string(), "Users".to_string()]));
}

#[test]
fn a_long_name_is_cut_after_its_last_whole_character_within_the_limit() {
    // 65534 ASCII bytes, then a 3-byte character that would straddle the
    // 65535-byte limit.
    let name = format!("{}€tail", "a".repeat(65_534));
    let mut b = TreeBuilder::new();
    let id = b.push(file(ROOT, &name, 1));
    let short = b.push(file(ROOT, "short.txt", 1));
    let exact = b.push(file(ROOT, &"b".repeat(65_535), 1));
    let t = b.finalize();
    assert_eq!(t.name(id), "a".repeat(65_534));
    assert_eq!(t.name(short), "short.txt");
    assert_eq!(t.name(exact).len(), 65_535);
}

#[test]
fn names_below_an_id_outside_the_tree_is_none() {
    let (t, c, users, _) = sample();
    assert_eq!(t.names_below(c, 999), None);
    assert_eq!(t.names_below(999, users), None);
}
