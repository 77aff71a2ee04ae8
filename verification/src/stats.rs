//! The aggregation result: one `StatsNode` per traversed directory.

use vstd::prelude::*;

verus! {

/// Aggregated state of one directory (or of the synthetic scan root).
///
/// Each scalar field covers the regular files directly or transitively
/// contained; `children` holds one entry, under its name, for every
/// subdirectory that was traversed.
pub struct StatsNode {
    /// Count of regular files contained, directly or transitively.
    pub file_count: u32,
    /// Sum of the logical byte sizes of all contained regular files.
    pub apparent_size: u64,
    /// Sum of the 512-byte allocation units consumed by all contained files.
    pub allocated_units: u64,
    /// The traversed subdirectories, each under its entry name.
    pub children: Vec<(String, StatsNode)>,
}

/// Height of a statistics tree: 1 for the node itself plus the height of its
/// tallest child. Used as a termination measure when walking re-ordered
/// children.
pub open spec fn st_height(st: StatsNode) -> nat
    decreases st,
{
    1 + kids_height(st.children@)
}

/// The largest height among the nodes of a child sequence (0 when empty).
pub open spec fn kids_height(cs: Seq<(String, StatsNode)>) -> nat
    decreases cs,
{
    if cs.len() == 0 {
        0
    } else {
        let rest = kids_height(cs.drop_last());
        let last = st_height(cs.last().1);
        if rest >= last {
            rest
        } else {
            last
        }
    }
}

/// Every member of a child sequence is strictly lower than the node above it.
pub proof fn lemma_kids_height_mem(cs: Seq<(String, StatsNode)>, i: int)
    requires
        0 <= i < cs.len(),
    ensures
        st_height(cs[i].1) <= kids_height(cs),
    decreases cs.len(),
{
    if i == cs.len() - 1 {
        assert(cs.last() == cs[i]);
    } else {
        lemma_kids_height_mem(cs.drop_last(), i);
        assert(cs.drop_last()[i] == cs[i]);
    }
}

/// A sequence whose members all stay under a bound has height under it too.
pub proof fn lemma_kids_height_bound(cs: Seq<(String, StatsNode)>, b: nat)
    requires
        forall|i: int| 0 <= i < cs.len() ==> st_height(#[trigger] cs[i].1) < b,
        b >= 1,
    ensures
        kids_height(cs) < b,
    decreases cs.len(),
{
    if cs.len() > 0 {
        lemma_kids_height_bound(cs.drop_last(), b);
        assert(cs.last() == cs[cs.len() - 1]);
    }
}

/// True when some existing child already carries this name.
pub open spec fn has_child_name(cs: Seq<(String, StatsNode)>, name: Seq<char>) -> bool {
    exists|i: int| 0 <= i < cs.len() && #[trigger] cs[i].0@ == name
}

impl StatsNode {
    /// The empty aggregate: what traversal starts from when entering a
    /// directory.
    pub fn new() -> (st: StatsNode)
        ensures
            st.file_count == 0,
            st.apparent_size == 0,
            st.allocated_units == 0,
            st.children@ == Seq::<(String, StatsNode)>::empty(),
    {
        StatsNode { file_count: 0, apparent_size: 0, allocated_units: 0, children: Vec::new() }
    }

    /// Fold a completed child aggregate into this node: the scalar fields
    /// absorb the child's totals and the child is inserted under `name`.
    ///
    /// Returns false, leaving this node unchanged, when a child of that name
    /// is already present or a scalar sum would not fit its field.
    pub fn merge_child(&mut self, name: String, child: StatsNode) -> (ok: bool)
        ensures
            ok == (!has_child_name(old(self).children@, name@)
                && old(self).apparent_size + child.apparent_size <= u64::MAX
                && old(self).allocated_units + child.allocated_units <= u64::MAX
                && old(self).file_count + child.file_count <= u32::MAX),
            ok ==> final(self).apparent_size == old(self).apparent_size + child.apparent_size
                && final(self).allocated_units == old(self).allocated_units
                    + child.allocated_units
                && final(self).file_count == old(self).file_count + child.file_count
                && final(self).children@ == old(self).children@.push((name, child)),
            !ok ==> *final(self) == *old(self),
    {
        let mut i: usize = 0;
        while i < self.children.len()
            invariant
                0 <= i <= self.children.len(),
                *self == *old(self),
                forall|j: int| 0 <= j < i ==> #[trigger] self.children@[j].0@ != name@,
            decreases self.children.len() - i,
        {
            if self.children[i].0 == name {
                return false;
            }
            i += 1;
        }
        let apparent_size = match self.apparent_size.checked_add(child.apparent_size) {
            Some(v) => v,
            None => {
                return false;
            },
        };
        let allocated_units = match self.allocated_units.checked_add(child.allocated_units) {
            Some(v) => v,
            None => {
                return false;
            },
        };
        let file_count = match self.file_count.checked_add(child.file_count) {
            Some(v) => v,
            None => {
                return false;
            },
        };
        self.apparent_size = apparent_size;
        self.allocated_units = allocated_units;
        self.file_count = file_count;
        self.children.push((name, child));
        true
    }
}

} // verus!
