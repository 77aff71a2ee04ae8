use dirstat::options::{Cutoff, Mode};
use dirstat::render::{render, render_checked};
use dirstat::scan::{scan, FsEntry, FsNode};
use dirstat::stats::StatsNode;

fn file(name: &str, size: u64, blocks: u64) -> FsEntry {
    FsEntry { name: name.to_string(), dev: 1, node: FsNode::File { size, blocks } }
}

fn dir(name: &str, entries: Vec<FsEntry>) -> FsEntry {
    FsEntry { name: name.to_string(), dev: 1, node: FsNode::Dir { entries } }
}

fn scenario_snapshot() -> FsNode {
    // One 10,000,000-byte file and one subdirectory holding a 1,000-byte file.
    FsNode::Dir {
        entries: vec![
            file("big", 10_000_000, 19532),
            dir("sub", vec![file("tiny", 1000, 2)]),
        ],
    }
}

#[test]
fn small_subdirectory_is_pruned_under_default_cutoff() {
    let st = scan(&scenario_snapshot(), None).unwrap();
    assert_eq!(st.allocated_units, 19534);
    let lines = render(st, "", Mode::Size, Cutoff::default_fraction());
    // 19534 units * 512 = 10,001,408 bytes ~ 9.538 MiB; the subdirectory's
    // two units fall far below 0.3% of the total and are omitted.
    assert_eq!(lines, vec!["9.538 MiB  ".to_string()]);
}

#[test]
fn children_are_sorted_descending_and_cut_off() {
    let snap = FsNode::Dir {
        entries: vec![
            dir("small", vec![file("s", 1, 1)]),
            dir("big", vec![file("b", 500, 1)]),
            dir("mid", vec![file("m", 300, 1)]),
        ],
    };
    let st = scan(&snap, None).unwrap();
    let lines = render(st, "", Mode::ApparentSize, Cutoff { num: 1, den: 100 });
    // Total 801 bytes; threshold 801/100 = 8; "small" (1 byte) is pruned.
    assert_eq!(
        lines,
        vec![
            "  801 B  ".to_string(),
            "      500 B  big".to_string(),
            "      300 B  mid".to_string(),
        ]
    );
}

#[test]
fn a_shown_node_still_prunes_its_own_children() {
    // The subdirectory itself passes the threshold and is printed, but the
    // tiny directory beneath it is pruned by the same global threshold.
    let snap = FsNode::Dir {
        entries: vec![
            file("top", 400, 1),
            dir("sub", vec![file("inner", 400, 1), dir("deep", vec![file("d", 1, 1)])]),
        ],
    };
    let st = scan(&snap, None).unwrap();
    let lines = render(st, "", Mode::ApparentSize, Cutoff { num: 1, den: 100 });
    assert_eq!(
        lines,
        vec!["  801 B  ".to_string(), "      401 B  sub".to_string()]
    );
}

#[test]
fn ties_keep_first_seen_order() {
    let snap = FsNode::Dir {
        entries: vec![
            dir("x", vec![file("a", 100, 1)]),
            dir("y", vec![file("b", 100, 1)]),
        ],
    };
    let st = scan(&snap, None).unwrap();
    let lines = render(st, "", Mode::ApparentSize, Cutoff { num: 0, den: 1 });
    assert_eq!(
        lines,
        vec![
            "  200 B  ".to_string(),
            "      100 B  x".to_string(),
            "      100 B  y".to_string(),
        ]
    );
}

#[test]
fn files_mode_counts_and_labels() {
    let snap = FsNode::Dir {
        entries: vec![
            file("a", 10, 1),
            file("b", 10, 1),
            dir("sub", vec![file("c", 10, 1)]),
        ],
    };
    let st = scan(&snap, None).unwrap();
    let lines = render(st, "", Mode::Files, Cutoff { num: 0, den: 1 });
    assert_eq!(
        lines,
        vec!["    3 files  ".to_string(), "        1 file   sub".to_string()]
    );
}

#[test]
fn renders_are_deterministic() {
    let make = || scan(&scenario_snapshot(), None).unwrap();
    let a = render(make(), "", Mode::Size, Cutoff::default_fraction());
    let b = render(make(), "", Mode::Size, Cutoff::default_fraction());
    assert_eq!(a, b);
    let c = render(make(), "", Mode::Files, Cutoff::default_fraction());
    let d = render(make(), "", Mode::Files, Cutoff::default_fraction());
    assert_eq!(c, d);
}

#[test]
fn two_inputs_merge_into_one_named_root() {
    let pa = FsNode::Dir { entries: vec![file("a", 100, 1)] };
    let pb = FsNode::Dir { entries: vec![file("b", 600, 2)] };
    let sa = scan(&pa, None).unwrap();
    let sb = scan(&pb, None).unwrap();
    let mut root = StatsNode::new();
    assert!(root.merge_child("pa".to_string(), sa));
    assert!(root.merge_child("pb".to_string(), sb));
    assert_eq!(root.apparent_size, 700);
    assert_eq!(root.allocated_units, 3);
    assert_eq!(root.file_count, 2);
    let lines = render(root, "", Mode::ApparentSize, Cutoff { num: 0, den: 1 });
    assert_eq!(
        lines,
        vec![
            "  700 B  ".to_string(),
            "      600 B  pb".to_string(),
            "      100 B  pa".to_string(),
        ]
    );
}

#[test]
fn render_checked_refuses_unrepresentable_byte_totals() {
    let st = StatsNode {
        file_count: 1,
        apparent_size: 1,
        allocated_units: u64::MAX,
        children: Vec::new(),
    };
    assert!(render_checked(st, "", Mode::Size, Cutoff::default_fraction()).is_none());
    let ok = StatsNode {
        file_count: 1,
        apparent_size: 1,
        allocated_units: u64::MAX,
        children: Vec::new(),
    };
    // The same node is fine under a mode that does not scale to bytes.
    assert!(render_checked(ok, "", Mode::ApparentSize, Cutoff::default_fraction()).is_some());
}
