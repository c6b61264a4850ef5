use dirmap::snapshot::DirTree;
use dirmap::snapshot::MapSnapshot;

fn b(s: &str) -> Vec<u8> {
    s.as_bytes().to_vec()
}

fn leaf(path: &str) -> DirTree {
    DirTree { path: b(path), dirs: Vec::new(), files: Vec::new() }
}

fn dir(path: &str, dirs: Vec<DirTree>, files: Vec<&str>) -> DirTree {
    DirTree { path: b(path), dirs, files: files.into_iter().map(b).collect() }
}

fn rendered(tree: &DirTree, max_depth: u8) -> Vec<u8> {
    let snapshot = MapSnapshot::new(tree, max_depth, 0);
    let mut out: Vec<u8> = Vec::new();
    snapshot.print(&mut out);
    out
}

#[test]
fn test_concrete_scenario() {
    let tree = dir(
        "/tmp/a",
        vec![dir("/tmp/a/b", vec![], vec!["/tmp/a/b/x.txt"])],
        vec!["/tmp/a/y.txt"],
    );
    let out = rendered(&tree, 10);
    assert_eq!(out, b("/tmp/a\n\t/tmp/a/b\n\t\t/tmp/a/b/x.txt\n\t/tmp/a/y.txt\n"));
}

#[test]
fn test_depth_zero_truncates_subdirectories() {
    let tree = dir("/r", vec![dir("/r/d1", vec![], vec!["/r/d1/f"])], vec!["/r/f1"]);
    let out = rendered(&tree, 0);
    assert_eq!(out, b("/r\n\t/r/d1\n\t/r/f1\n"));
}

#[test]
fn test_empty_directory_single_line() {
    let out = rendered(&leaf("/e"), 10);
    assert_eq!(out, b("/e\n"));
}

#[test]
fn test_directories_before_files_each_sorted() {
    let tree = dir(
        "/root",
        vec![leaf("/root/zz"), leaf("/root/aa"), leaf("/root/mm")],
        vec!["/root/m.txt", "/root/a.txt", "/root/z.txt"],
    );
    let out = rendered(&tree, 10);
    assert_eq!(
        out,
        b("/root\n\t/root/aa\n\t/root/mm\n\t/root/zz\n\t/root/a.txt\n\t/root/m.txt\n\t/root/z.txt\n"),
    );
}

#[test]
fn test_idempotent_over_same_listing() {
    let tree = dir(
        "/base",
        vec![dir("/base/sub", vec![leaf("/base/sub/deep")], vec!["/base/sub/s.txt"])],
        vec!["/base/top.txt"],
    );
    let first = rendered(&tree, 5);
    let second = rendered(&tree, 5);
    assert_eq!(first, second);
}

#[test]
fn test_truncation_keeps_boundary_node_drops_deeper() {
    let tree = dir(
        "/a",
        vec![dir("/a/b", vec![dir("/a/b/c", vec![leaf("/a/b/c/d")], vec![])], vec![])],
        vec![],
    );
    let out = rendered(&tree, 1);
    assert_eq!(out, b("/a\n\t/a/b\n\t\t/a/b/c\n"));
}

#[test]
fn test_byte_order_puts_prefix_first() {
    let tree = dir("/p", vec![], vec!["/p/ab", "/p/a", "/p/b"]);
    let out = rendered(&tree, 3);
    assert_eq!(out, b("/p\n\t/p/a\n\t/p/ab\n\t/p/b\n"));
}

#[test]
fn test_print_appends_to_existing_buffer() {
    let snapshot = MapSnapshot::new(&leaf("/x"), 2, 0);
    let mut out = b("HEAD:");
    snapshot.print(&mut out);
    assert_eq!(out, b("HEAD:/x\n"));
}

#[test]
fn test_starting_depth_sets_indentation() {
    let snapshot = MapSnapshot::new(&leaf("/x"), 10, 3);
    let mut out: Vec<u8> = Vec::new();
    snapshot.print(&mut out);
    assert_eq!(out, b("\t\t\t/x\n"));
}

#[test]
fn test_snapshot_fields_hold_sorted_children() {
    let tree = dir("/s", vec![leaf("/s/b"), leaf("/s/a")], vec!["/s/f2", "/s/f1"]);
    let snapshot = MapSnapshot::new(&tree, 10, 0);
    assert_eq!(snapshot.directory, b("/s"));
    assert_eq!(snapshot.depth, 0);
    assert_eq!(snapshot.children.len(), 4);
    match &snapshot.children[0] {
        dirmap::snapshot::FsEntry::Dir(d) => {
            assert_eq!(d.directory, b("/s/a"));
            assert_eq!(d.depth, 1);
            assert_eq!(d.children.len(), 0);
        },
        _ => panic!("expected a directory entry first"),
    }
    match &snapshot.children[2] {
        dirmap::snapshot::FsEntry::File(p) => assert_eq!(p, &b("/s/f1")),
        _ => panic!("expected a file entry after the directories"),
    }
}

#[test]
fn test_deep_nesting_indents_by_level() {
    let tree = dir(
        "/d0",
        vec![dir("/d0/d1", vec![dir("/d0/d1/d2", vec![], vec!["/d0/d1/d2/f"])], vec![])],
        vec![],
    );
    let out = rendered(&tree, 10);
    assert_eq!(out, b("/d0\n\t/d0/d1\n\t\t/d0/d1/d2\n\t\t\t/d0/d1/d2/f\n"));
}
