use spacetree::dto::child_page;
use spacetree::tree::{NodeId, RawNode, Tree, TreeBuilder, ROOT};
use spacetree::NodeFlags;

fn node(parent: NodeId, name: &str, size: u64, is_dir: bool) -> RawNode {
    RawNode {
        parent,
        name: name.to_string(),
        size_logical: size,
        size_alloc: size,
        mtime: 0,
        flags: if is_dir { NodeFlags::dir() } else { NodeFlags::empty() },
    }
}

/// `r` holds `b` (10 bytes), `a` (30 bytes) and the folder `c` (20 bytes).
fn listing_tree() -> (Tree, NodeId, [NodeId; 3]) {
    let mut t = TreeBuilder::new();
    let r = t.push(node(ROOT, "r", 0, true));
    let b = t.push(node(r, "b", 10, false));
    let a = t.push(node(r, "a", 30, false));
    let c = t.push(node(r, "c", 0, true));
    t.push(node(c, "inner", 20, false));
    (t.finalize(), r, [a, b, c])
}

#[test]
fn listing_by_size_puts_the_largest_first() {
    let (tree, r, [a, b, c]) = listing_tree();
    assert_eq!(child_page(&tree, r, "size", "desc", true, 0, 50), vec![a, c, b]);
    assert_eq!(child_page(&tree, r, "size", "asc", false, 0, 50), vec![b, c, a]);
}

#[test]
fn listing_by_name_orders_names_and_asc_turns_it_around() {
    let (tree, r, [a, b, c]) = listing_tree();
    assert_eq!(child_page(&tree, r, "name", "desc", true, 0, 50), vec![a, b, c]);
    assert_eq!(child_page(&tree, r, "name", "asc", true, 0, 50), vec![c, b, a]);
}

#[test]
fn listing_pages_skip_and_cap() {
    let (tree, r, [a, b, c]) = listing_tree();
    assert_eq!(child_page(&tree, r, "size", "desc", true, 1, 1), vec![c]);
    assert_eq!(child_page(&tree, r, "size", "desc", true, 2, 10), vec![b]);
    assert_eq!(child_page(&tree, r, "size", "desc", true, 5, 10), Vec::<NodeId>::new());
    assert_eq!(child_page(&tree, r, "size", "desc", true, 0, 0), Vec::<NodeId>::new());
    let _ = a;
}

#[test]
fn a_whole_listing_holds_every_child_once() {
    let (tree, r, [a, b, c]) = listing_tree();
    let mut page = child_page(&tree, r, "name", "asc", false, 0, 3);
    page.sort();
    let mut kids = vec![a, b, c];
    kids.sort();
    assert_eq!(page, kids);
    assert_eq!(child_page(&tree, c, "size", "desc", true, 0, 10).len(), 1);
}
