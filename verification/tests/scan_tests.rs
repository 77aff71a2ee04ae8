use dirstat::scan::{scan, FsEntry, FsNode};
use dirstat::stats::StatsNode;

fn file(name: &str, dev: u64, size: u64, blocks: u64) -> FsEntry {
    FsEntry { name: name.to_string(), dev, node: FsNode::File { size, blocks } }
}

fn dir(name: &str, dev: u64, entries: Vec<FsEntry>) -> FsEntry {
    FsEntry { name: name.to_string(), dev, node: FsNode::Dir { entries } }
}

#[test]
fn aggregates_direct_files() {
    let snap = FsNode::Dir {
        entries: vec![file("a", 1, 100, 1), file("b", 1, 250, 2)],
    };
    let st = scan(&snap, None).unwrap();
    assert_eq!(st.file_count, 2);
    assert_eq!(st.apparent_size, 350);
    assert_eq!(st.allocated_units, 3);
    assert_eq!(st.children.len(), 0);
}

#[test]
fn aggregates_bottom_up_through_children() {
    let snap = FsNode::Dir {
        entries: vec![
            file("top", 1, 1000, 4),
            dir("sub", 1, vec![file("inner", 1, 50, 1), dir("deep", 1, vec![file("x", 1, 7, 1)])]),
        ],
    };
    let st = scan(&snap, None).unwrap();
    assert_eq!(st.file_count, 3);
    assert_eq!(st.apparent_size, 1057);
    assert_eq!(st.allocated_units, 6);
    assert_eq!(st.children.len(), 1);
    assert_eq!(st.children[0].0, "sub");
    let sub = &st.children[0].1;
    // The child's own fields equal its direct file plus its child's totals.
    assert_eq!(sub.file_count, 2);
    assert_eq!(sub.apparent_size, 57);
    assert_eq!(sub.allocated_units, 2);
    assert_eq!(sub.children.len(), 1);
    assert_eq!(sub.children[0].0, "deep");
}

#[test]
fn other_entries_are_excluded() {
    let snap = FsNode::Dir {
        entries: vec![
            file("a", 1, 10, 1),
            FsEntry { name: "link".to_string(), dev: 1, node: FsNode::Other },
        ],
    };
    let st = scan(&snap, None).unwrap();
    assert_eq!(st.file_count, 1);
    assert_eq!(st.apparent_size, 10);
    assert_eq!(st.children.len(), 0);
}

#[test]
fn device_filter_excludes_foreign_subtree() {
    let snap = FsNode::Dir {
        entries: vec![
            file("here", 1, 10, 1),
            dir("mnt", 2, vec![file("huge", 2, 1_000_000, 2000)]),
        ],
    };
    let st = scan(&snap, Some(1)).unwrap();
    assert_eq!(st.file_count, 1);
    assert_eq!(st.apparent_size, 10);
    assert_eq!(st.allocated_units, 1);
    assert!(st.children.iter().all(|c| c.0 != "mnt"));
    assert_eq!(st.children.len(), 0);
}

#[test]
fn device_filter_ignores_whatever_lies_beneath_the_mount() {
    let beneath_a = vec![file("x", 2, 123, 9)];
    let beneath_b = vec![dir("d", 2, vec![file("y", 2, 5555, 77)])];
    let snap_a = FsNode::Dir { entries: vec![file("here", 1, 10, 1), dir("mnt", 2, beneath_a)] };
    let snap_b = FsNode::Dir { entries: vec![file("here", 1, 10, 1), dir("mnt", 2, beneath_b)] };
    let a = scan(&snap_a, Some(1)).unwrap();
    let b = scan(&snap_b, Some(1)).unwrap();
    assert_eq!(a.apparent_size, b.apparent_size);
    assert_eq!(a.allocated_units, b.allocated_units);
    assert_eq!(a.file_count, b.file_count);
    assert_eq!(a.children.len(), 0);
    assert_eq!(b.children.len(), 0);
}

#[test]
fn no_filter_counts_across_devices() {
    let snap = FsNode::Dir {
        entries: vec![file("here", 1, 10, 1), dir("mnt", 2, vec![file("huge", 2, 1000, 20)])],
    };
    let st = scan(&snap, None).unwrap();
    assert_eq!(st.apparent_size, 1010);
    assert_eq!(st.allocated_units, 21);
    assert_eq!(st.file_count, 2);
    assert_eq!(st.children.len(), 1);
}

#[test]
fn scan_reports_overflow_as_none() {
    let snap = FsNode::Dir {
        entries: vec![file("a", 1, u64::MAX, 0), file("b", 1, 1, 0)],
    };
    assert!(scan(&snap, None).is_none());
}

#[test]
fn scan_of_partial_directory_keeps_what_was_read() {
    // An unreadable directory appears as a directory with the entries read so
    // far; here, none at all.
    let snap = FsNode::Dir {
        entries: vec![file("a", 1, 42, 1), dir("unreadable", 1, vec![])],
    };
    let st = scan(&snap, None).unwrap();
    assert_eq!(st.apparent_size, 42);
    assert_eq!(st.children.len(), 1);
    assert_eq!(st.children[0].0, "unreadable");
    assert_eq!(st.children[0].1.file_count, 0);
}

#[test]
fn merge_child_sums_scalars_and_names_children() {
    let pa = FsNode::Dir { entries: vec![file("a", 1, 100, 1)] };
    let pb = FsNode::Dir { entries: vec![file("b", 1, 200, 3), dir("s", 1, vec![file("c", 1, 4, 1)])] };
    let sa = scan(&pa, None).unwrap();
    let sb = scan(&pb, None).unwrap();
    let (sa_size, sa_units, sa_files) = (sa.apparent_size, sa.allocated_units, sa.file_count);
    let (sb_size, sb_units, sb_files) = (sb.apparent_size, sb.allocated_units, sb.file_count);
    let mut root = StatsNode::new();
    assert!(root.merge_child("pa".to_string(), sa));
    assert!(root.merge_child("pb".to_string(), sb));
    assert_eq!(root.apparent_size, sa_size + sb_size);
    assert_eq!(root.allocated_units, sa_units + sb_units);
    assert_eq!(root.file_count, sa_files + sb_files);
    assert_eq!(root.children.len(), 2);
    assert_eq!(root.children[0].0, "pa");
    assert_eq!(root.children[1].0, "pb");
}

#[test]
fn merge_child_refuses_duplicate_name() {
    let mut root = StatsNode::new();
    assert!(root.merge_child("p".to_string(), StatsNode::new()));
    let before = (root.apparent_size, root.children.len());
    assert!(!root.merge_child("p".to_string(), StatsNode::new()));
    assert_eq!((root.apparent_size, root.children.len()), before);
}

#[test]
fn merge_child_refuses_overflow() {
    let mut root = StatsNode::new();
    let big = StatsNode { file_count: 0, apparent_size: u64::MAX, allocated_units: 0, children: Vec::new() };
    let one = StatsNode { file_count: 0, apparent_size: 1, allocated_units: 0, children: Vec::new() };
    assert!(root.merge_child("big".to_string(), big));
    assert!(!root.merge_child("one".to_string(), one));
    assert_eq!(root.apparent_size, u64::MAX);
    assert_eq!(root.children.len(), 1);
}
