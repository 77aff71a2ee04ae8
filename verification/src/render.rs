//! The report renderer: walk a completed statistics tree depth-first,
//! children sorted by descending metric, pruning at the first child whose
//! metric falls below a fixed global threshold.

use vstd::prelude::*;

use crate::numfmt::{fmt_spec, format_magnitude, UnitKind};
use crate::options::{Cutoff, Mode};
use crate::stats::{
    kids_height, lemma_kids_height_bound, lemma_kids_height_mem, st_height, StatsNode,
};

verus! {

/// The metric a mode sorts and prunes by.
pub open spec fn metric(st: StatsNode, m: Mode) -> int {
    match m {
        Mode::ApparentSize => st.apparent_size as int,
        Mode::Size => st.allocated_units as int,
        Mode::Files => st.file_count as int,
    }
}

/// The magnitude a mode displays: the metric itself, except that allocation
/// units are shown as the bytes they stand for.
pub open spec fn display_mag(st: StatsNode, m: Mode) -> int {
    match m {
        Mode::ApparentSize => st.apparent_size as int,
        Mode::Size => st.allocated_units as int * 512,
        Mode::Files => st.file_count as int,
    }
}

/// The unit system a mode displays in.
pub open spec fn unit_of(m: Mode) -> UnitKind {
    match m {
        Mode::Files => UnitKind::SiFiles,
        _ => UnitKind::IecBytes,
    }
}

/// Every display magnitude in the tree fits a 64-bit field.
pub open spec fn tree_display_fits(st: StatsNode, m: Mode) -> bool
    decreases st,
{
    &&& display_mag(st, m) <= u64::MAX
    &&& forall|i: int|
        0 <= i < st.children@.len() ==> tree_display_fits(#[trigger] st.children@[i].1, m)
}

/// Modes that display the metric itself always fit: only the size mode
/// scales allocation units to bytes and can exceed the field.
pub proof fn lemma_unscaled_modes_always_fit(st: StatsNode, m: Mode)
    requires
        m is ApparentSize || m is Files,
    ensures
        tree_display_fits(st, m),
    decreases st,
{
    assert forall|i: int| 0 <= i < st.children@.len() implies tree_display_fits(
        #[trigger] st.children@[i].1,
        m,
    ) by {
        lemma_unscaled_modes_always_fit(st.children@[i].1, m);
    }
}

/// The global absolute threshold: the grand total scaled by the cutoff
/// fraction (saturating at the field's limit), computed once before
/// rendering.
pub open spec fn threshold_spec(total: int, num: int, den: int) -> int {
    let t = total * num / den;
    if t > u64::MAX {
        u64::MAX as int
    } else {
        t
    }
}

/// A sequence in descending metric order.
pub open spec fn sorted_desc(s: Seq<(String, StatsNode)>, m: Mode) -> bool {
    forall|i: int, j: int|
        0 <= i <= j < s.len() ==> metric(#[trigger] s[i].1, m) >= metric(#[trigger] s[j].1, m)
}

/// Insert `x` behind every element whose metric is at least its own: the
/// stable insertion step.
pub open spec fn insert_desc(
    s: Seq<(String, StatsNode)>,
    x: (String, StatsNode),
    m: Mode,
) -> Seq<(String, StatsNode)>
    decreases s.len(),
{
    if s.len() == 0 {
        seq![x]
    } else if metric(s.last().1, m) >= metric(x.1, m) {
        s.push(x)
    } else {
        insert_desc(s.drop_last(), x, m).push(s.last())
    }
}

/// Stable insertion sort by descending metric: ties keep their first-seen
/// order, so the result is a function of the input sequence alone.
pub open spec fn sort_spec(s: Seq<(String, StatsNode)>, m: Mode) -> Seq<(String, StatsNode)>
    decreases s.len(),
{
    if s.len() == 0 {
        Seq::empty()
    } else {
        insert_desc(sort_spec(s.drop_last(), m), s.last(), m)
    }
}

/// The longest prefix whose metrics all reach the threshold: the walk stops
/// at the first child below it.
pub open spec fn take_above(
    s: Seq<(String, StatsNode)>,
    m: Mode,
    th: int,
) -> Seq<(String, StatsNode)>
    decreases s.len(),
{
    if s.len() == 0 {
        Seq::empty()
    } else if metric(s.first().1, m) < th {
        Seq::empty()
    } else {
        seq![s.first()] + take_above(s.drop_first(), m, th)
    }
}

/// Every element of an insertion is the inserted one or one of the old ones.
proof fn lemma_insert_desc_elems(s: Seq<(String, StatsNode)>, x: (String, StatsNode), m: Mode)
    ensures
        insert_desc(s, x, m).len() == s.len() + 1,
        forall|k: int|
            0 <= k < insert_desc(s, x, m).len() ==> (#[trigger] insert_desc(s, x, m)[k] == x
                || s.contains(insert_desc(s, x, m)[k])),
    decreases s.len(),
{
    if s.len() == 0 {
    } else if metric(s.last().1, m) >= metric(x.1, m) {
        assert forall|k: int| 0 <= k < insert_desc(s, x, m).len() implies (#[trigger] insert_desc(
            s,
            x,
            m,
        )[k] == x || s.contains(insert_desc(s, x, m)[k])) by {
            if k < s.len() {
                assert(insert_desc(s, x, m)[k] == s[k]);
            }
        }
    } else {
        lemma_insert_desc_elems(s.drop_last(), x, m);
        let t = insert_desc(s.drop_last(), x, m);
        assert forall|k: int| 0 <= k < insert_desc(s, x, m).len() implies (#[trigger] insert_desc(
            s,
            x,
            m,
        )[k] == x || s.contains(insert_desc(s, x, m)[k])) by {
            if k < t.len() {
                assert(insert_desc(s, x, m)[k] == t[k]);
                if t[k] != x {
                    let j = choose|j: int| 0 <= j < s.drop_last().len() && s.drop_last()[j] == t[k];
                    assert(s[j] == t[k]);
                }
            } else {
                assert(insert_desc(s, x, m)[k] == s.last());
                assert(s[s.len() - 1] == s.last());
            }
        }
    }
}

/// Sorting invents no element: whatever the sorted sequence holds was in the
/// input.
pub proof fn lemma_sort_elems(s: Seq<(String, StatsNode)>, m: Mode)
    ensures
        sort_spec(s, m).len() == s.len(),
        forall|k: int|
            0 <= k < sort_spec(s, m).len() ==> s.contains(#[trigger] sort_spec(s, m)[k]),
    decreases s.len(),
{
    if s.len() > 0 {
        lemma_sort_elems(s.drop_last(), m);
        lemma_insert_desc_elems(sort_spec(s.drop_last(), m), s.last(), m);
        let t = sort_spec(s.drop_last(), m);
        assert forall|k: int| 0 <= k < sort_spec(s, m).len() implies s.contains(
            #[trigger] sort_spec(s, m)[k],
        ) by {
            let y = sort_spec(s, m)[k];
            if y == s.last() {
                assert(s[s.len() - 1] == y);
            } else {
                assert(t.contains(y));
                let j = choose|j: int| 0 <= j < t.len() && t[j] == y;
                assert(s.drop_last().contains(y));
                let j2 = choose|j2: int| 0 <= j2 < s.drop_last().len() && s.drop_last()[j2] == y;
                assert(s[j2] == y);
            }
        }
    }
}

/// Insertion keeps a descending sequence descending.
proof fn lemma_insert_desc_sorted(s: Seq<(String, StatsNode)>, x: (String, StatsNode), m: Mode)
    requires
        sorted_desc(s, m),
    ensures
        sorted_desc(insert_desc(s, x, m), m),
    decreases s.len(),
{
    if s.len() == 0 {
    } else if metric(s.last().1, m) >= metric(x.1, m) {
        let r = s.push(x);
        assert forall|i: int, j: int| 0 <= i <= j < r.len() implies metric(#[trigger] r[i].1, m)
            >= metric(#[trigger] r[j].1, m) by {
            if j < s.len() {
                assert(r[i] == s[i] && r[j] == s[j]);
            } else if i < s.len() {
                assert(r[i] == s[i] && r[j] == x);
                assert(metric(s[i].1, m) >= metric(s[s.len() - 1].1, m));
            }
        }
    } else {
        lemma_insert_desc_sorted(s.drop_last(), x, m);
        lemma_insert_desc_elems(s.drop_last(), x, m);
        let t = insert_desc(s.drop_last(), x, m);
        let r = t.push(s.last());
        assert forall|i: int, j: int| 0 <= i <= j < r.len() implies metric(#[trigger] r[i].1, m)
            >= metric(#[trigger] r[j].1, m) by {
            if j < t.len() {
                assert(r[i] == t[i] && r[j] == t[j]);
            } else if i < t.len() {
                assert(r[i] == t[i] && r[j] == s.last());
                if t[i] == x {
                } else {
                    assert(s.drop_last().contains(t[i]));
                    let q = choose|q: int|
                        0 <= q < s.drop_last().len() && s.drop_last()[q] == t[i];
                    assert(s[q] == t[i]);
                    assert(metric(s[q].1, m) >= metric(s[s.len() - 1].1, m));
                }
            }
        }
    }
}

/// The sorted children are in descending metric order.
pub proof fn lemma_sort_sorted(s: Seq<(String, StatsNode)>, m: Mode)
    ensures
        sorted_desc(sort_spec(s, m), m),
    decreases s.len(),
{
    if s.len() > 0 {
        lemma_sort_sorted(s.drop_last(), m);
        lemma_insert_desc_sorted(sort_spec(s.drop_last(), m), s.last(), m);
    }
}

/// Cutoff monotonicity: in a sequence sorted descending by the active
/// metric, once one element falls below the threshold, so does every later
/// one — stopping the walk there skips nothing that would have been shown.
pub proof fn lemma_cutoff_monotone(
    s: Seq<(String, StatsNode)>,
    m: Mode,
    th: int,
    i: int,
    j: int,
)
    requires
        sorted_desc(s, m),
        0 <= i <= j < s.len(),
        metric(s[i].1, m) < th,
    ensures
        metric(s[j].1, m) < th,
{
}

/// The kept prefix holds only elements of its input.
proof fn lemma_take_above_elems(s: Seq<(String, StatsNode)>, m: Mode, th: int)
    ensures
        forall|k: int|
            0 <= k < take_above(s, m, th).len() ==> s.contains(#[trigger] take_above(s, m, th)[k]),
    decreases s.len(),
{
    if s.len() == 0 || metric(s.first().1, m) < th {
    } else {
        lemma_take_above_elems(s.drop_first(), m, th);
        let t = take_above(s, m, th);
        assert forall|k: int| 0 <= k < t.len() implies s.contains(#[trigger] t[k]) by {
            if k == 0 {
                assert(s[0] == t[0]);
            } else {
                assert(t[k] == take_above(s.drop_first(), m, th)[k - 1]);
                assert(s.drop_first().contains(t[k]));
                let j = choose|j: int| 0 <= j < s.drop_first().len() && s.drop_first()[j] == t[k];
                assert(s[j + 1] == t[k]);
            }
        }
    }
}

/// One printed line: indentation, the formatted display magnitude, two
/// spaces, the node's name.
pub open spec fn line_spec(name: Seq<char>, st: StatsNode, m: Mode, indent: Seq<char>) -> Seq<
    char,
> {
    indent + fmt_spec(display_mag(st, m) as u64, unit_of(m)) + seq![' ', ' '] + name
}

/// Every node with a height under the bound keeps kept-children heights
/// under it too.
pub proof fn lemma_walk_height(cs: Seq<(String, StatsNode)>, m: Mode, th: int, b: nat)
    requires
        b >= 1,
        forall|i: int| 0 <= i < cs.len() ==> st_height(#[trigger] cs[i].1) < b,
    ensures
        kids_height(take_above(sort_spec(cs, m), m, th)) < b,
{
    lemma_sort_elems(cs, m);
    lemma_take_above_elems(sort_spec(cs, m), m, th);
    let kept = take_above(sort_spec(cs, m), m, th);
    assert forall|i: int| 0 <= i < kept.len() implies st_height(#[trigger] kept[i].1) < b by {
        assert(sort_spec(cs, m).contains(kept[i]));
        let j = choose|j: int| 0 <= j < sort_spec(cs, m).len() && sort_spec(cs, m)[j] == kept[i];
        assert(cs.contains(sort_spec(cs, m)[j]));
        let q = choose|q: int| 0 <= q < cs.len() && cs[q] == sort_spec(cs, m)[j];
    };
    lemma_kids_height_bound(kept, b);
}

/// The lines of one node: its own line, then, depth-first, the lines of its
/// sorted children up to the first one below the threshold, one indentation
/// step deeper.
pub open spec fn render_spec(
    name: Seq<char>,
    st: StatsNode,
    m: Mode,
    th: int,
    indent: Seq<char>,
) -> Seq<Seq<char>>
    decreases st_height(st), 0nat,
{
    proof {
        assert forall|i: int| 0 <= i < st.children@.len() implies st_height(
            #[trigger] st.children@[i].1,
        ) < st_height(st) by {
            lemma_kids_height_mem(st.children@, i);
        }
        lemma_walk_height(st.children@, m, th, st_height(st));
    }
    seq![line_spec(name, st, m, indent)] + render_kids(
        take_above(sort_spec(st.children@, m), m, th),
        m,
        th,
        indent + seq![' ', ' ', ' ', ' '],
    )
}

/// The lines of a kept child sequence, in order.
pub open spec fn render_kids(
    cs: Seq<(String, StatsNode)>,
    m: Mode,
    th: int,
    indent: Seq<char>,
) -> Seq<Seq<char>>
    decreases kids_height(cs), cs.len(),
{
    if cs.len() == 0 {
        Seq::empty()
    } else {
        proof {
            lemma_kids_height_mem(cs, 0);
            lemma_kids_height_drop_first(cs);
        }
        render_spec(cs.first().0@, cs.first().1, m, th, indent) + render_kids(
            cs.drop_first(),
            m,
            th,
            indent,
        )
    }
}

/// Dropping the first element cannot raise the height of a child sequence.
pub proof fn lemma_kids_height_drop_first(cs: Seq<(String, StatsNode)>)
    requires
        cs.len() > 0,
    ensures
        kids_height(cs.drop_first()) <= kids_height(cs),
    decreases cs.len(),
{
    if cs.len() == 1 {
    } else {
        lemma_kids_height_drop_first(cs.drop_last());
        assert(cs.drop_first().drop_last() =~= cs.drop_last().drop_first());
        assert(cs.drop_first().last() == cs.last());
    }
}

/// The views of a sequence of owned lines.
pub open spec fn lines_view(s: Seq<String>) -> Seq<Seq<char>> {
    s.map_values(|x: String| x@)
}

/// Rendering determinism: the lines are a function of the tree, the mode,
/// the threshold and the labels alone, so two renders of the same completed
/// tree agree byte for byte.
pub proof fn lemma_render_deterministic(
    a: Seq<String>,
    b: Seq<String>,
    name: Seq<char>,
    st: StatsNode,
    m: Mode,
    th: int,
    indent: Seq<char>,
)
    requires
        lines_view(a) == render_spec(name, st, m, th, indent),
        lines_view(b) == render_spec(name, st, m, th, indent),
    ensures
        a.len() == b.len(),
        forall|i: int| 0 <= i < a.len() ==> #[trigger] a[i]@ == b[i]@,
{
    assert(lines_view(a).len() == a.len());
    assert(lines_view(b).len() == b.len());
    assert forall|i: int| 0 <= i < a.len() implies #[trigger] a[i]@ == b[i]@ by {
        assert(lines_view(a)[i] == a[i]@);
        assert(lines_view(b)[i] == b[i]@);
    }
}

/// The metric, for display and thresholding.
pub fn metric_of(st: &StatsNode, m: Mode) -> (v: u64)
    ensures
        v as int == metric(*st, m),
{
    match m {
        Mode::ApparentSize => st.apparent_size,
        Mode::Size => st.allocated_units,
        Mode::Files => st.file_count as u64,
    }
}

/// The display magnitude of a node whose magnitudes fit.
fn display_of(st: &StatsNode, m: Mode) -> (v: u64)
    requires
        display_mag(*st, m) <= u64::MAX,
    ensures
        v as int == display_mag(*st, m),
{
    match m {
        Mode::ApparentSize => st.apparent_size,
        Mode::Size => st.allocated_units * 512,
        Mode::Files => st.file_count as u64,
    }
}

/// The unit system a mode displays in.
fn unit_exec(m: Mode) -> (u: UnitKind)
    ensures
        u == unit_of(m),
{
    match m {
        Mode::Files => UnitKind::SiFiles,
        _ => UnitKind::IecBytes,
    }
}

/// Decide whether every display magnitude in the tree fits its field.
pub fn check_display_fits(st: &StatsNode, m: Mode) -> (b: bool)
    ensures
        b == tree_display_fits(*st, m),
    decreases st_height(*st),
{
    let own_ok = match m {
        Mode::Size => st.allocated_units <= u64::MAX / 512,
        _ => true,
    };
    proof {
        assert(st.allocated_units <= u64::MAX / 512 <==> st.allocated_units as int * 512
            <= u64::MAX) by (nonlinear_arith);
    }
    if !own_ok {
        return false;
    }
    let mut i: usize = 0;
    while i < st.children.len()
        invariant
            0 <= i <= st.children@.len(),
            display_mag(*st, m) <= u64::MAX,
            forall|j: int| 0 <= j < i ==> tree_display_fits(#[trigger] st.children@[j].1, m),
        decreases st.children@.len() - i,
    {
        proof {
            lemma_kids_height_mem(st.children@, i as int);
        }
        if !check_display_fits(&st.children[i].1, m) {
            return false;
        }
        i += 1;
    }
    true
}

/// The global threshold for a grand total and a cutoff fraction.
pub fn compute_threshold(total: u64, num: u64, den: u64) -> (t: u64)
    requires
        den > 0,
    ensures
        t as int == threshold_spec(total as int, num as int, den as int),
{
    proof {
        assert((total as int) * (num as int) <= (u64::MAX as int) * (u64::MAX as int))
            by (nonlinear_arith)
            requires
                0 <= total as int <= u64::MAX as int,
                0 <= num as int <= u64::MAX as int,
        ;
    }
    let v: u128 = (total as u128) * (num as u128) / (den as u128);
    if v > (u64::MAX as u128) {
        u64::MAX
    } else {
        v as u64
    }
}

/// Stable sort by descending metric; the result is exactly `sort_spec` of
/// the input.
fn sort_children(v: Vec<(String, StatsNode)>, m: Mode) -> (r: Vec<(String, StatsNode)>)
    ensures
        r@ == sort_spec(v@, m),
{
    let ghost orig = v@;
    let mut v = v;
    let mut out: Vec<(String, StatsNode)> = Vec::new();
    let ghost mut done: int = 0;
    while v.len() > 0
        invariant
            0 <= done,
            done + v@.len() == orig.len(),
            v@ == orig.subrange(done, orig.len() as int),
            out@ == sort_spec(orig.subrange(0, done), m),
        decreases v@.len(),
    {
        let x = v.remove(0);
        proof {
            assert(x == orig[done]);
            assert(v@ =~= orig.subrange(done + 1, orig.len() as int));
        }
        let mx = metric_of(&x.1, m);
        let ghost before = out@;
        let mut p: usize = out.len();
        let mut scanning = p > 0;
        while scanning
            invariant
                0 <= p <= out@.len(),
                out@ == before,
                mx as int == metric(x.1, m),
                scanning ==> p > 0,
                !scanning ==> p == 0 || metric(out@[p - 1].1, m) >= metric(x.1, m),
                forall|k: int|
                    p <= k < out@.len() ==> metric(#[trigger] out@[k].1, m) < metric(x.1, m),
            decreases p + (if scanning { 1int } else { 0int }),
        {
            let mv = metric_of(&out[p - 1].1, m);
            if mv < mx {
                p -= 1;
                scanning = p > 0;
            } else {
                scanning = false;
            }
        }
        out.insert(p, x);
        proof {
            lemma_insert_desc_at(before, x, m, p as int);
            assert(out@ =~= before.subrange(0, p as int) + seq![x] + before.subrange(
                p as int,
                before.len() as int,
            ));
            let next = orig.subrange(0, done + 1);
            assert(next.drop_last() =~= orig.subrange(0, done));
            assert(next.last() == orig[done]);
            assert(sort_spec(next, m) == insert_desc(
                sort_spec(orig.subrange(0, done), m),
                orig[done],
                m,
            ));
            done = done + 1;
        }
    }
    proof {
        assert(orig.subrange(0, done) =~= orig);
    }
    out
}

/// Where the scan from the right stopped is where the stable insertion
/// lands.
proof fn lemma_insert_desc_at(
    s: Seq<(String, StatsNode)>,
    x: (String, StatsNode),
    m: Mode,
    p: int,
)
    requires
        0 <= p <= s.len(),
        forall|k: int| p <= k < s.len() ==> metric(#[trigger] s[k].1, m) < metric(x.1, m),
        p > 0 ==> metric(s[p - 1].1, m) >= metric(x.1, m),
    ensures
        insert_desc(s, x, m) == s.subrange(0, p) + seq![x] + s.subrange(p, s.len() as int),
    decreases s.len(),
{
    if p == s.len() {
        if s.len() == 0 {
            assert(insert_desc(s, x, m) =~= s.subrange(0, p) + seq![x] + s.subrange(
                p,
                s.len() as int,
            ));
        } else {
            assert(s[p - 1] == s.last());
            assert(insert_desc(s, x, m) == s.push(x));
            assert(s.push(x) =~= s.subrange(0, p) + seq![x] + s.subrange(p, s.len() as int));
        }
    } else {
        assert(metric(s[s.len() - 1].1, m) < metric(x.1, m));
        assert(s[s.len() - 1] == s.last());
        lemma_insert_desc_at(s.drop_last(), x, m, p);
        assert(s.drop_last().subrange(0, p) =~= s.subrange(0, p));
        assert(s.drop_last().subrange(p, s.drop_last().len() as int) =~= s.subrange(
            p,
            s.len() - 1,
        ));
        assert(insert_desc(s, x, m) == insert_desc(s.drop_last(), x, m).push(s.last()));
        assert((s.subrange(0, p) + seq![x] + s.subrange(p, s.len() - 1)).push(s.last()) =~= s
            .subrange(0, p) + seq![x] + s.subrange(p, s.len() as int));
    }
}

/// Append the report lines for one node (and its kept descendants) to `out`.
fn render_node(
    name: &str,
    st: StatsNode,
    m: Mode,
    th: u64,
    indent: &str,
    out: &mut Vec<String>,
    Ghost(h): Ghost<nat>,
)
    requires
        tree_display_fits(st, m),
        st_height(st) <= h,
    ensures
        lines_view(final(out)@) == lines_view(old(out)@) + render_spec(
            name@,
            st,
            m,
            th as int,
            indent@,
        ),
    decreases h,
{
    let ghost st0 = st;
    let ghost out0 = old(out)@;
    let mag = display_of(&st, m);
    let fstr = format_magnitude(mag, unit_exec(m));
    let mut line = indent.to_owned();
    line.append(fstr.as_str());
    line.append("  ");
    line.append(name);
    proof {
        reveal_strlit("  ");
        assert(line@ == line_spec(name@, st0, m, indent@));
    }
    out.push(line);
    let StatsNode { children, .. } = st;
    let sorted = sort_children(children, m);
    let mut child_indent = indent.to_owned();
    child_indent.append("    ");
    proof {
        reveal_strlit("    ");
        assert(child_indent@ == indent@ + seq![' ', ' ', ' ', ' ']);
    }
    let ghost ci = child_indent@;
    let mut rest = sorted;
    proof {
        assert forall|i: int| 0 <= i < st0.children@.len() implies st_height(
            #[trigger] st0.children@[i].1,
        ) < st_height(st0) by {
            lemma_kids_height_mem(st0.children@, i);
        }
        lemma_walk_height(st0.children@, m, th as int, st_height(st0));
        lemma_sort_elems(st0.children@, m);
        assert forall|k: int| 0 <= k < rest@.len() implies st_height(#[trigger] rest@[k].1)
            < st_height(st0) && tree_display_fits(rest@[k].1, m) by {
            assert(st0.children@.contains(rest@[k]));
            let j = choose|j: int|
                0 <= j < st0.children@.len() && st0.children@[j] == rest@[k];
        }
        assert(lines_view(out@) =~= lines_view(out0) + seq![line_spec(name@, st0, m, indent@)]);
        assert(render_spec(name@, st0, m, th as int, indent@) == seq![
            line_spec(name@, st0, m, indent@),
        ] + render_kids(take_above(sort_spec(st0.children@, m), m, th as int), m, th as int, ci));
    }
    let mut stopped = false;
    while !stopped && rest.len() > 0
        invariant
            st_height(st0) <= h,
            ci == child_indent@,
            stopped ==> take_above(rest@, m, th as int) == Seq::<(String, StatsNode)>::empty(),
            forall|k: int|
                0 <= k < rest@.len() ==> st_height(#[trigger] rest@[k].1) < st_height(st0)
                    && tree_display_fits(rest@[k].1, m),
            lines_view(out@) + render_kids(take_above(rest@, m, th as int), m, th as int, ci)
                =~= lines_view(out0) + render_spec(name@, st0, m, th as int, indent@),
        decreases (if stopped {
            0int
        } else {
            1int
        }) + rest@.len(),
    {
        let stop = metric_of(&rest[0].1, m) < th;
        if stop {
            proof {
                assert(take_above(rest@, m, th as int) =~= Seq::empty());
            }
            stopped = true;
            continue ;
        }
        let ghost rest0 = rest@;
        let pr = rest.remove(0);
        let (nm, child) = pr;
        proof {
            assert(rest@ =~= rest0.drop_first());
            assert(pr == rest0[0]);
            assert(rest0.first() == rest0[0]);
            assert(nm == pr.0 && child == pr.1);
            let ta = take_above(rest0, m, th as int);
            assert(ta == seq![rest0.first()] + take_above(rest0.drop_first(), m, th as int));
            assert(ta.first() == rest0.first());
            assert(ta.drop_first() =~= take_above(rest0.drop_first(), m, th as int));
            assert(render_kids(ta, m, th as int, ci) == render_spec(
                rest0[0].0@,
                rest0[0].1,
                m,
                th as int,
                ci,
            ) + render_kids(take_above(rest@, m, th as int), m, th as int, ci));
        }
        let ghost out_before = out@;
        proof {
            assert(st_height(rest0[0].1) < st_height(st0));
            assert(child == rest0[0].1);
        }
        render_node(nm.as_str(), child, m, th, child_indent.as_str(), out, Ghost(st_height(child)));
        proof {
            assert(lines_view(out@) =~= lines_view(out_before) + render_spec(
                rest0[0].0@,
                rest0[0].1,
                m,
                th as int,
                ci,
            ));
            assert(lines_view(out_before) + (render_spec(rest0[0].0@, rest0[0].1, m, th as int, ci)
                + render_kids(take_above(rest@, m, th as int), m, th as int, ci)) =~= (lines_view(
                out_before,
            ) + render_spec(rest0[0].0@, rest0[0].1, m, th as int, ci)) + render_kids(
                take_above(rest@, m, th as int),
                m,
                th as int,
                ci,
            ));
        }
    }
    proof {
        assert(take_above(rest@, m, th as int) =~= Seq::empty());
        assert(render_kids(take_above(rest@, m, th as int), m, th as int, ci)
            =~= Seq::<Seq<char>>::empty());
        assert(lines_view(out@) =~= lines_view(out@) + Seq::<Seq<char>>::empty());
        assert(lines_view(out@) =~= lines_view(out0) + render_spec(
            name@,
            st0,
            m,
            th as int,
            indent@,
        ));
    }
}

/// Render the whole report for a completed tree: the threshold is computed
/// once from the root's metric total and the cutoff fraction, then every
/// line is `render_spec` of the tree.
pub fn render(root: StatsNode, name: &str, m: Mode, cutoff: Cutoff) -> (lines: Vec<String>)
    requires
        cutoff.wf(),
        tree_display_fits(root, m),
    ensures
        lines_view(lines@) == render_spec(
            name@,
            root,
            m,
            threshold_spec(metric(root, m), cutoff.num as int, cutoff.den as int),
            Seq::<char>::empty(),
        ),
{
    let total = metric_of(&root, m);
    let th = compute_threshold(total, cutoff.num, cutoff.den);
    let mut out: Vec<String> = Vec::new();
    proof {
        assert(lines_view(out@) =~= Seq::<Seq<char>>::empty());
    }
    render_node(name, root, m, th, "", &mut out, Ghost(st_height(root)));
    proof {
        reveal_strlit("");
        assert(""@ =~= Seq::<char>::empty());
        assert(lines_view(out@) =~= Seq::<Seq<char>>::empty() + render_spec(
            name@,
            root,
            m,
            th as int,
            ""@,
        ));
        assert(lines_view(out@) =~= render_spec(name@, root, m, th as int, Seq::<char>::empty()));
    }
    out
}

/// Render after checking that every display magnitude fits; `None` exactly
/// when one does not.
pub fn render_checked(root: StatsNode, name: &str, m: Mode, cutoff: Cutoff) -> (r: Option<
    Vec<String>,
>)
    requires
        cutoff.wf(),
    ensures
        r is Some <==> tree_display_fits(root, m),
        r matches Option::Some(lines) ==> lines_view(lines@) == render_spec(
            name@,
            root,
            m,
            threshold_spec(metric(root, m), cutoff.num as int, cutoff.den as int),
            Seq::<char>::empty(),
        ),
{
    if check_display_fits(&root, m) {
        Some(render(root, name, m, cutoff))
    } else {
        None
    }
}

} // verus!
