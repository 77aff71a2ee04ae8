//! The aggregation engine: fold a filesystem snapshot into a statistics tree,
//! refusing to cross filesystem-device boundaries when asked to.

use vstd::prelude::*;

use crate::stats::StatsNode;

verus! {

/// One directory entry of the snapshot: its name, the id of the device it
/// lives on, and what it is.
pub struct FsEntry {
    pub name: String,
    pub dev: u64,
    pub node: FsNode,
}

/// What a path holds. Entries that are neither directories nor regular files
/// (symbolic links, sockets, devices, ...) appear as `Other` and are excluded
/// from every count.
pub enum FsNode {
    /// A regular file: its logical byte size and its 512-byte allocation
    /// units.
    File { size: u64, blocks: u64 },
    /// A directory and the entries that could be enumerated under it. When a
    /// directory could not be read completely, the entries read so far stand
    /// here: the failure is local and the partial aggregate is kept.
    Dir { entries: Vec<FsEntry> },
    /// Anything else.
    Other,
}

/// The three aggregate magnitudes, as unbounded integers.
pub struct Totals {
    pub size: int,
    pub blocks: int,
    pub files: int,
}

pub open spec fn zero_totals() -> Totals {
    Totals { size: 0, blocks: 0, files: 0 }
}

pub open spec fn add_totals(a: Totals, b: Totals) -> Totals {
    Totals { size: a.size + b.size, blocks: a.blocks + b.blocks, files: a.files + b.files }
}

/// Does the device filter admit an entry on device `dev`?
pub open spec fn allowed(filter: Option<u64>, dev: u64) -> bool {
    match filter {
        Option::None => true,
        Option::Some(d) => dev == d,
    }
}

/// The entries of a directory node (empty for the other variants).
pub open spec fn dir_entries(n: FsNode) -> Seq<FsEntry> {
    match n {
        FsNode::Dir { entries } => entries@,
        _ => Seq::empty(),
    }
}

/// The exact totals a scan of `n` must report under the device filter `f`.
pub open spec fn node_totals(n: FsNode, f: Option<u64>) -> Totals
    decreases n,
{
    match n {
        FsNode::File { size, blocks } => Totals {
            size: size as int,
            blocks: blocks as int,
            files: 1,
        },
        FsNode::Other => zero_totals(),
        FsNode::Dir { entries } => entries_totals(entries@, f),
    }
}

/// Totals over a sequence of directory entries: entries on a filtered-out
/// device contribute nothing at all.
pub open spec fn entries_totals(es: Seq<FsEntry>, f: Option<u64>) -> Totals
    decreases es,
{
    if es.len() == 0 {
        zero_totals()
    } else {
        let e = es.last();
        let last = if allowed(f, e.dev) {
            node_totals(e.node, f)
        } else {
            zero_totals()
        };
        add_totals(entries_totals(es.drop_last(), f), last)
    }
}

/// Do the totals of `n` under filter `f` fit the scalar fields of a
/// `StatsNode`?
pub open spec fn fits(n: FsNode, f: Option<u64>) -> bool {
    &&& node_totals(n, f).size <= u64::MAX
    &&& node_totals(n, f).blocks <= u64::MAX
    &&& node_totals(n, f).files <= u32::MAX
}

/// Full correctness of an aggregate: the scalar fields carry the totals of
/// the snapshot under the filter, and the children correspond, in entry
/// order, exactly to the admitted subdirectories, each correct in turn.
pub open spec fn st_matches(st: StatsNode, n: FsNode, f: Option<u64>) -> bool
    decreases n,
{
    &&& st.apparent_size == node_totals(n, f).size
    &&& st.allocated_units == node_totals(n, f).blocks
    &&& st.file_count == node_totals(n, f).files
    &&& match n {
        FsNode::Dir { entries } => kids_match(st.children@, entries@, f),
        _ => st.children@.len() == 0,
    }
}

/// The children `cs` are, in order, the admitted directory entries of `es`:
/// one child per entry on the right device that is a directory, named after
/// it and matching its subtree.
pub open spec fn kids_match(cs: Seq<(String, StatsNode)>, es: Seq<FsEntry>, f: Option<u64>) -> bool
    decreases es,
{
    if es.len() == 0 {
        cs.len() == 0
    } else {
        let e = es.last();
        if allowed(f, e.dev) && e.node is Dir {
            &&& cs.len() > 0
            &&& cs.last().0@ == e.name@
            &&& st_matches(cs.last().1, e.node, f)
            &&& kids_match(cs.drop_last(), es.drop_last(), f)
        } else {
            kids_match(cs, es.drop_last(), f)
        }
    }
}

/// Height of a snapshot node, the termination measure of the scan.
pub open spec fn fs_height(n: FsNode) -> nat
    decreases n,
{
    match n {
        FsNode::Dir { entries } => 1 + fs_entries_height(entries@),
        _ => 1,
    }
}

/// The largest height among a sequence of entries (0 when empty).
pub open spec fn fs_entries_height(es: Seq<FsEntry>) -> nat
    decreases es,
{
    if es.len() == 0 {
        0
    } else {
        let rest = fs_entries_height(es.drop_last());
        let last = fs_height(es.last().node);
        if rest >= last {
            rest
        } else {
            last
        }
    }
}

/// Every entry's node stays at or under the height of its sequence.
proof fn lemma_fs_entries_height_mem(es: Seq<FsEntry>, i: int)
    requires
        0 <= i < es.len(),
    ensures
        fs_height(es[i].node) <= fs_entries_height(es),
    decreases es.len(),
{
    if i == es.len() - 1 {
        assert(es.last() == es[i]);
    } else {
        lemma_fs_entries_height_mem(es.drop_last(), i);
        assert(es.drop_last()[i] == es[i]);
    }
}

/// Totals are never negative.
proof fn lemma_node_totals_nonneg(n: FsNode, f: Option<u64>)
    ensures
        node_totals(n, f).size >= 0,
        node_totals(n, f).blocks >= 0,
        node_totals(n, f).files >= 0,
    decreases n,
{
    match n {
        FsNode::Dir { entries } => {
            lemma_entries_totals_nonneg(entries@, f);
        },
        _ => {},
    }
}

proof fn lemma_entries_totals_nonneg(es: Seq<FsEntry>, f: Option<u64>)
    ensures
        entries_totals(es, f).size >= 0,
        entries_totals(es, f).blocks >= 0,
        entries_totals(es, f).files >= 0,
    decreases es,
{
    if es.len() > 0 {
        lemma_entries_totals_nonneg(es.drop_last(), f);
        if allowed(f, es.last().dev) {
            lemma_node_totals_nonneg(es.last().node, f);
        }
    }
}

/// A prefix of the entries never exceeds the whole, in any component.
proof fn lemma_entries_totals_prefix(es: Seq<FsEntry>, f: Option<u64>, i: int)
    requires
        0 <= i <= es.len(),
    ensures
        entries_totals(es.subrange(0, i), f).size <= entries_totals(es, f).size,
        entries_totals(es.subrange(0, i), f).blocks <= entries_totals(es, f).blocks,
        entries_totals(es.subrange(0, i), f).files <= entries_totals(es, f).files,
    decreases es.len(),
{
    if i == es.len() {
        assert(es.subrange(0, i) =~= es);
    } else {
        lemma_entries_totals_prefix(es.drop_last(), f, i);
        assert(es.drop_last().subrange(0, i) =~= es.subrange(0, i));
        if allowed(f, es.last().dev) {
            lemma_node_totals_nonneg(es.last().node, f);
        }
    }
}

/// An admitted entry's own totals never exceed those of the whole sequence.
proof fn lemma_entry_totals_le(es: Seq<FsEntry>, f: Option<u64>, i: int)
    requires
        0 <= i < es.len(),
        allowed(f, es[i].dev),
    ensures
        node_totals(es[i].node, f).size <= entries_totals(es, f).size,
        node_totals(es[i].node, f).blocks <= entries_totals(es, f).blocks,
        node_totals(es[i].node, f).files <= entries_totals(es, f).files,
    decreases es.len(),
{
    if i == es.len() - 1 {
        lemma_entries_totals_nonneg(es.drop_last(), f);
        assert(es.last() == es[i]);
    } else {
        lemma_entry_totals_le(es.drop_last(), f, i);
        assert(es.drop_last()[i] == es[i]);
        if allowed(f, es.last().dev) {
            lemma_node_totals_nonneg(es.last().node, f);
        }
    }
}

/// Totals of the admitted regular files directly contained in a directory's
/// entries, with one counted file each.
pub open spec fn direct_totals(es: Seq<FsEntry>, f: Option<u64>) -> Totals
    decreases es,
{
    if es.len() == 0 {
        zero_totals()
    } else {
        let e = es.last();
        let last = match e.node {
            FsNode::File { size, blocks } => if allowed(f, e.dev) {
                Totals { size: size as int, blocks: blocks as int, files: 1 }
            } else {
                zero_totals()
            },
            _ => zero_totals(),
        };
        add_totals(direct_totals(es.drop_last(), f), last)
    }
}

/// Componentwise sum of the scalar fields over a child sequence.
pub open spec fn kids_sum(cs: Seq<(String, StatsNode)>) -> Totals
    decreases cs,
{
    if cs.len() == 0 {
        zero_totals()
    } else {
        let st = cs.last().1;
        add_totals(
            kids_sum(cs.drop_last()),
            Totals {
                size: st.apparent_size as int,
                blocks: st.allocated_units as int,
                files: st.file_count as int,
            },
        )
    }
}

/// Matching children split a directory's totals into the direct files' share
/// and the children's already-aggregated share.
proof fn lemma_kids_match_totals(cs: Seq<(String, StatsNode)>, es: Seq<FsEntry>, f: Option<u64>)
    requires
        kids_match(cs, es, f),
    ensures
        entries_totals(es, f) == add_totals(direct_totals(es, f), kids_sum(cs)),
    decreases es.len(),
{
    if es.len() == 0 {
    } else {
        let e = es.last();
        if allowed(f, e.dev) && e.node is Dir {
            lemma_kids_match_totals(cs.drop_last(), es.drop_last(), f);
            let st = cs.last().1;
            assert(kids_match(cs, es, f));
            assert(st_matches(st, e.node, f));
            assert(st.apparent_size == node_totals(e.node, f).size);
            assert(st.allocated_units == node_totals(e.node, f).blocks);
            assert(st.file_count == node_totals(e.node, f).files);
            assert(entries_totals(es, f) == add_totals(
                entries_totals(es.drop_last(), f),
                node_totals(e.node, f),
            ));
            assert(kids_sum(cs) == add_totals(
                kids_sum(cs.drop_last()),
                Totals {
                    size: st.apparent_size as int,
                    blocks: st.allocated_units as int,
                    files: st.file_count as int,
                },
            ));
            assert(direct_totals(es, f) == direct_totals(es.drop_last(), f));
        } else {
            lemma_kids_match_totals(cs, es.drop_last(), f);
            let c = if allowed(f, e.dev) {
                node_totals(e.node, f)
            } else {
                zero_totals()
            };
            assert(entries_totals(es, f) == add_totals(entries_totals(es.drop_last(), f), c));
            let c2 = match e.node {
                FsNode::File { size, blocks } => if allowed(f, e.dev) {
                    Totals { size: size as int, blocks: blocks as int, files: 1 }
                } else {
                    zero_totals()
                },
                _ => zero_totals(),
            };
            assert(direct_totals(es, f) == add_totals(direct_totals(es.drop_last(), f), c2));
            assert(c == c2);
        }
    }
}

/// Aggregation correctness: each scalar field of a directory's node is the
/// sum of that field over its direct regular files plus the sum of the same
/// field over all of its (already aggregated) children.
pub proof fn lemma_aggregation(st: StatsNode, n: FsNode, f: Option<u64>)
    requires
        n is Dir,
        st_matches(st, n, f),
    ensures
        st.apparent_size == direct_totals(dir_entries(n), f).size + kids_sum(st.children@).size,
        st.allocated_units == direct_totals(dir_entries(n), f).blocks + kids_sum(
            st.children@,
        ).blocks,
        st.file_count == direct_totals(dir_entries(n), f).files + kids_sum(st.children@).files,
{
    lemma_kids_match_totals(st.children@, dir_entries(n), f);
}

/// Replacing the subtree of an entry on a filtered-out device changes no
/// total: nothing beneath that entry is counted.
proof fn lemma_entries_update_filtered(es: Seq<FsEntry>, d: u64, i: int, repl: FsNode)
    requires
        0 <= i < es.len(),
        es[i].dev != d,
    ensures
        entries_totals(
            es.update(i, FsEntry { name: es[i].name, dev: es[i].dev, node: repl }),
            Some(d),
        ) == entries_totals(es, Some(d)),
    decreases es.len(),
{
    let e2 = FsEntry { name: es[i].name, dev: es[i].dev, node: repl };
    let es2 = es.update(i, e2);
    if i == es.len() - 1 {
        assert(es2.drop_last() =~= es.drop_last());
        assert(es2.last() == e2);
    } else {
        lemma_entries_update_filtered(es.drop_last(), d, i, repl);
        assert(es2.drop_last() =~= es.drop_last().update(i, e2));
        assert(es2.last() == es.last());
    }
}

/// Every child's name is the name of some admitted directory entry.
proof fn lemma_kids_names(cs: Seq<(String, StatsNode)>, es: Seq<FsEntry>, f: Option<u64>, j: int)
    requires
        kids_match(cs, es, f),
        0 <= j < cs.len(),
    ensures
        exists|k: int|
            0 <= k < es.len() && allowed(f, #[trigger] es[k].dev) && es[k].node is Dir
                && cs[j].0@ == es[k].name@,
    decreases es.len(),
{
    let e = es.last();
    if allowed(f, e.dev) && e.node is Dir {
        if j == cs.len() - 1 {
            assert(cs[j] == cs.last());
            assert(0 <= es.len() - 1 < es.len() && allowed(f, es[es.len() - 1].dev) && es[es.len()
                - 1].node is Dir && cs[j].0@ == es[es.len() - 1].name@);
        } else {
            lemma_kids_names(cs.drop_last(), es.drop_last(), f, j);
            assert(cs.drop_last()[j] == cs[j]);
            let k = choose|k: int|
                0 <= k < es.drop_last().len() && allowed(f, #[trigger] es.drop_last()[k].dev)
                    && es.drop_last()[k].node is Dir && cs[j].0@ == es.drop_last()[k].name@;
            assert(es.drop_last()[k] == es[k]);
        }
    } else {
        lemma_kids_names(cs, es.drop_last(), f, j);
        let k = choose|k: int|
            0 <= k < es.drop_last().len() && allowed(f, #[trigger] es.drop_last()[k].dev)
                && es.drop_last()[k].node is Dir && cs[j].0@ == es.drop_last()[k].name@;
        assert(es.drop_last()[k] == es[k]);
    }
}

/// Device filter idempotence: when the boundary policy is active and an entry
/// lies on another device, the aggregate carries no child for that entry, and
/// its scalar fields do not depend on anything beneath it.
pub proof fn lemma_device_filter(st: StatsNode, n: FsNode, d: u64, i: int, repl: FsNode)
    requires
        n is Dir,
        st_matches(st, n, Some(d)),
        0 <= i < dir_entries(n).len(),
        dir_entries(n)[i].dev != d,
        forall|k: int|
            0 <= k < dir_entries(n).len() && k != i ==> #[trigger] dir_entries(n)[k].name@
                != dir_entries(n)[i].name@,
    ensures
        forall|j: int|
            0 <= j < st.children@.len() ==> #[trigger] st.children@[j].0@ != dir_entries(
                n,
            )[i].name@,
        entries_totals(
            dir_entries(n).update(
                i,
                FsEntry { name: dir_entries(n)[i].name, dev: dir_entries(n)[i].dev, node: repl },
            ),
            Some(d),
        ) == entries_totals(dir_entries(n), Some(d)),
{
    let es = dir_entries(n);
    lemma_entries_update_filtered(es, d, i, repl);
    assert forall|j: int| 0 <= j < st.children@.len() implies #[trigger] st.children@[j].0@
        != es[i].name@ by {
        lemma_kids_names(st.children@, es, Some(d), j);
    }
}

/// Build the statistics tree for a snapshot under a device filter.
///
/// Returns `Some` exactly when the three totals fit their fields, and then
/// the result matches the snapshot completely; entries on another device are
/// excluded from every count.
pub fn scan(n: &FsNode, filter: Option<u64>) -> (r: Option<StatsNode>)
    ensures
        r is Some <==> fits(*n, filter),
        r matches Option::Some(st) ==> st_matches(st, *n, filter),
    decreases fs_height(*n),
{
    match n {
        FsNode::File { size, blocks } => Some(
            StatsNode {
                file_count: 1,
                apparent_size: *size,
                allocated_units: *blocks,
                children: Vec::new(),
            },
        ),
        FsNode::Other => Some(StatsNode::new()),
        FsNode::Dir { entries } => {
            let ghost es = entries@;
            let mut file_count: u32 = 0;
            let mut apparent_size: u64 = 0;
            let mut allocated_units: u64 = 0;
            let mut kids: Vec<(String, StatsNode)> = Vec::new();
            let mut i: usize = 0;
            while i < entries.len()
                invariant
                    0 <= i <= es.len(),
                    entries@ == es,
                    *n == (FsNode::Dir { entries: *entries }),
                    apparent_size == entries_totals(es.subrange(0, i as int), filter).size,
                    allocated_units == entries_totals(es.subrange(0, i as int), filter).blocks,
                    file_count == entries_totals(es.subrange(0, i as int), filter).files,
                    kids_match(kids@, es.subrange(0, i as int), filter),
                decreases es.len() - i,
            {
                let e = &entries[i];
                let ghost prefix = es.subrange(0, i as int);
                let ghost prefix1 = es.subrange(0, i as int + 1);
                proof {
                    assert(prefix1.drop_last() =~= prefix);
                    assert(prefix1.last() == es[i as int]);
                }
                let adm = match filter {
                    Option::None => true,
                    Option::Some(d) => e.dev == d,
                };
                if adm {
                    match &e.node {
                        FsNode::File { size, blocks } => {
                            proof {
                                assert(allowed(filter, es[i as int].dev));
                                assert(es[i as int].node == (FsNode::File {
                                    size: *size,
                                    blocks: *blocks,
                                }));
                                assert(node_totals(es[i as int].node, filter).size == *size);
                                assert(entries_totals(prefix1, filter) == add_totals(
                                    entries_totals(prefix, filter),
                                    node_totals(es[i as int].node, filter),
                                ));
                            }
                            let next_size = match apparent_size.checked_add(*size) {
                                Some(v) => v,
                                None => {
                                    proof {
                                        lemma_entries_totals_prefix(es, filter, i as int + 1);
                                    }
                                    return None;
                                },
                            };
                            let next_units = match allocated_units.checked_add(*blocks) {
                                Some(v) => v,
                                None => {
                                    proof {
                                        lemma_entries_totals_prefix(es, filter, i as int + 1);
                                    }
                                    return None;
                                },
                            };
                            let next_files = match file_count.checked_add(1) {
                                Some(v) => v,
                                None => {
                                    proof {
                                        lemma_entries_totals_prefix(es, filter, i as int + 1);
                                    }
                                    return None;
                                },
                            };
                            apparent_size = next_size;
                            allocated_units = next_units;
                            file_count = next_files;
                        },
                        FsNode::Other => {},
                        FsNode::Dir { .. } => {
                            proof {
                                lemma_fs_entries_height_mem(es, i as int);
                            }
                            let child = match scan(&e.node, filter) {
                                Some(child) => child,
                                None => {
                                    proof {
                                        lemma_entry_totals_le(es, filter, i as int);
                                        lemma_node_totals_nonneg(es[i as int].node, filter);
                                    }
                                    return None;
                                },
                            };
                            let next_size = match apparent_size.checked_add(child.apparent_size) {
                                Some(v) => v,
                                None => {
                                    proof {
                                        lemma_entries_totals_prefix(es, filter, i as int + 1);
                                    }
                                    return None;
                                },
                            };
                            let next_units = match allocated_units.checked_add(
                                child.allocated_units,
                            ) {
                                Some(v) => v,
                                None => {
                                    proof {
                                        lemma_entries_totals_prefix(es, filter, i as int + 1);
                                    }
                                    return None;
                                },
                            };
                            let next_files = match file_count.checked_add(child.file_count) {
                                Some(v) => v,
                                None => {
                                    proof {
                                        lemma_entries_totals_prefix(es, filter, i as int + 1);
                                    }
                                    return None;
                                },
                            };
                            apparent_size = next_size;
                            allocated_units = next_units;
                            file_count = next_files;
                            let ghost kids_before = kids@;
                            let ghost child_g = child;
                            let name = e.name.clone();
                            proof {
                                assert(name@ == es[i as int].name@);
                            }
                            kids.push((name, child));
                            proof {
                                assert(kids@.drop_last() =~= kids_before);
                                assert(kids@.last().1 == child_g);
                                assert(kids_match(kids@, prefix1, filter));
                            }
                        },
                    }
                }
                i += 1;
            }
            proof {
                assert(es.subrange(0, es.len() as int) =~= es);
            }
            Some(StatsNode { file_count, apparent_size, allocated_units, children: kids })
        },
    }
}

} // verus!
