//! The measurement pass.
//!
//! One top-down pass, no convergence loop: a node whose layout flag is
//! clean returns its cached size unconditionally; a dirty node runs its
//! measurement behavior, which may measure and place children, or realize
//! slot content through its registry, then stores the size and clears the
//! flag.

use vstd::prelude::*;

use crate::compose::{
    pols_basic, reg_in_range, tree_basic, Instance, Registry, Slot,
};
use crate::constraints::Constraints;
use crate::geometry::Size;
use crate::num::{sat_add, sat_sub, spec_sat_add, spec_sat_sub};
use crate::policy::{templates_basic, ComposePolicy, MeasurePolicy, Template};
use crate::tree::{
    frontier, kids, lemma_child_segment, lemma_same_links_shape, lemma_sub_end_bounds, links_ok,
    node_spans_ok, same_links, shape_ok, shifted_node, sub_end, Node, NodePhase, Tree,
};

verus! {

broadcast use vstd::std_specs::vec::group_vec_axioms;

/// Every subcompose node of the arena points into the registry table.
pub open spec fn regs_ok(t: Seq<Node>, regs: Seq<Registry>) -> bool {
    forall|j: int| 0 <= j < t.len() ==> reg_in_range((#[trigger] t[j]).phase, 0, regs.len() as int)
}

/// A well-formed nested instance: its own well-formed arena, free of
/// further subcompose nodes.
pub open spec fn instance_wf(inst: Instance) -> bool {
    inst.tree.wf() && tree_basic(inst.tree.nodes@)
}

/// A well-formed registry: distinct keys, well-formed instances.
pub open spec fn registry_wf(r: Registry) -> bool {
    &&& forall|s1: int, s2: int|
        0 <= s1 < s2 < r.entries@.len() ==> (#[trigger] r.entries@[s1]).key != (
        #[trigger] r.entries@[s2]).key
    &&& forall|s: int| 0 <= s < r.entries@.len() ==> instance_wf((#[trigger] r.entries@[s]).instance)
}

/// Every registry of the table is well-formed.
pub open spec fn regs_wf(regs: Seq<Registry>) -> bool {
    forall|q: int| 0 <= q < regs.len() ==> registry_wf(#[trigger] regs[q])
}

/// What a measurement may change in a node it does not own: behavior,
/// structure and the render side stay untouched.
pub open spec fn measure_keeps(a: Node, b: Node) -> bool {
    &&& b.children@ == a.children@
    &&& b.phase == a.phase
    &&& b.draw_runs == a.draw_runs
    &&& b.render_dirty == a.render_dirty
}

/// A counter bumped once, stopping at its ceiling.
pub open spec fn spec_bump(n: u64) -> u64 {
    if n < u64::MAX {
        (n + 1) as u64
    } else {
        n
    }
}

/// The width of a vertical stack of the first `k` children: the widest of
/// their measured widths, at least zero.
pub open spec fn stack_width(t: Seq<Node>, cs: Seq<usize>, k: int) -> int
    decreases k,
{
    if k <= 0 {
        0
    } else {
        let prev = stack_width(t, cs, k - 1);
        let w = t[cs[k - 1] as int].area.size.width as int;
        if w > prev {
            w
        } else {
            prev
        }
    }
}

/// The height of a vertical stack of the first `k` children: their
/// measured heights summed, saturating.
pub open spec fn stack_height(t: Seq<Node>, cs: Seq<usize>, k: int) -> int
    decreases k,
{
    if k <= 0 {
        0
    } else {
        spec_sat_add(stack_height(t, cs, k - 1), t[cs[k - 1] as int].area.size.height as int)
    }
}

/// The stack folds read only the listed children's areas.
pub proof fn lemma_stack_frame(t1: Seq<Node>, t2: Seq<Node>, cs: Seq<usize>, k: int)
    requires
        forall|kk: int| 0 <= kk < k ==> (cs[kk] as int) < t1.len(),
        forall|kk: int|
            0 <= kk < k ==> t2[cs[kk] as int].area.size == (#[trigger] t1[cs[kk] as int]).area.size,
        forall|kk: int| 0 <= kk < k ==> ((cs[kk] as int) < t2.len()),
    ensures
        stack_width(t2, cs, k) == stack_width(t1, cs, k),
        stack_height(t2, cs, k) == stack_height(t1, cs, k),
    decreases k,
{
    if k > 0 {
        lemma_stack_frame(t1, t2, cs, k - 1);
    }
}



/// The loose box: zero minima, unbounded maxima.
pub open spec fn loose_box() -> Constraints {
    Constraints {
        min: Size { width: 0, height: 0 },
        max: Size {
            width: crate::constraints::UNBOUNDED,
            height: crate::constraints::UNBOUNDED,
        },
    }
}

/// The constraints a fill behavior measures its child under: axes being
/// filled are pinned to the bounded maximum, other axes pass through.
pub open spec fn spec_fill_constraints(c: Constraints, horizontal: bool, vertical: bool) -> Constraints {
    Constraints {
        min: Size {
            width: if c.max.width != crate::constraints::UNBOUNDED && horizontal {
                c.max.width
            } else {
                c.min.width
            },
            height: if c.max.height != crate::constraints::UNBOUNDED && vertical {
                c.max.height
            } else {
                c.min.height
            },
        },
        max: c.max,
    }
}

/// What measuring the node at `i` under `c` returns, over the state the
/// pass starts from: a clean node hands back its cached size; a dirty
/// node's size is its behavior's result over its children's sizes, each
/// measured under the constraints the behavior hands down. What a
/// subcompose node realizes depends on its slot registry, so its result
/// is drawn from the oracle `orc` — clamped into the box, which is all
/// the tree alone determines — and the measurement contract quantifies
/// the oracle existentially.
pub open spec fn measured(t: Seq<Node>, i: int, c: Constraints, orc: Seq<Size>) -> Size
    decreases t.len() - i, kids(t, i).len() + 1,
        when 0 <= i < t.len() && links_ok(t)
{
    if !t[i].layout_dirty {
        t[i].area.size
    } else {
        match t[i].phase {
            NodePhase::Virtual => Size { width: 0, height: 0 },
            NodePhase::Render { .. } => if kids(t, i).len() == 0 {
                Size { width: 0, height: 0 }
            } else {
                measured(t, kids(t, i)[0] as int, c, orc)
            },
            NodePhase::Measurement { policy, .. } => match policy {
                MeasurePolicy::Fixed(v) => c.spec_apply(v),
                MeasurePolicy::MinSize => c.min,
                MeasurePolicy::Column => c.spec_apply(
                    column_measured(t, i, kids(t, i).len() as int, orc),
                ),
                MeasurePolicy::Padding { start, end, top, bottom } => {
                    let dw = spec_sat_add(start as int, end as int);
                    let dh = spec_sat_add(top as int, bottom as int);
                    if kids(t, i).len() == 0 {
                        c.spec_apply(Size { width: 0, height: 0 })
                    } else {
                        let cz = measured(
                            t,
                            kids(t, i)[0] as int,
                            c.spec_offset(spec_sat_sub(0, dw), spec_sat_sub(0, dh)),
                            orc,
                        );
                        c.spec_apply(
                            Size {
                                width: spec_sat_add(cz.width as int, dw) as i64,
                                height: spec_sat_add(cz.height as int, dh) as i64,
                            },
                        )
                    }
                },
                MeasurePolicy::Fill { horizontal, vertical } => if kids(t, i).len() == 0 {
                    Size { width: 0, height: 0 }
                } else {
                    measured(
                        t,
                        kids(t, i)[0] as int,
                        spec_fill_constraints(c, horizontal, vertical),
                        orc,
                    )
                },
                MeasurePolicy::Frame { width } => {
                    let both = spec_sat_add(width as int, width as int);
                    if kids(t, i).len() == 0 {
                        Size {
                            width: spec_sat_add(0, both) as i64,
                            height: spec_sat_add(0, both) as i64,
                        }
                    } else {
                        let cz = measured(
                            t,
                            kids(t, i)[0] as int,
                            c.spec_offset(spec_sat_sub(0, both), spec_sat_sub(0, both)),
                            orc,
                        );
                        Size {
                            width: spec_sat_add(cz.width as int, both) as i64,
                            height: spec_sat_add(cz.height as int, both) as i64,
                        }
                    }
                },
            },
            NodePhase::MeasurementCompose { .. } => c.spec_apply(orc[i]),
        }
    }
}

/// The vertical stack of the first `k` children of the node at `i`, each
/// measured under the loose box: the width is the widest child's, the
/// height the saturating sum, in order.
pub open spec fn column_measured(t: Seq<Node>, i: int, k: int, orc: Seq<Size>) -> Size
    decreases t.len() - i, k,
        when 0 <= i < t.len() && links_ok(t) && k <= kids(t, i).len()
{
    if k <= 0 {
        Size { width: 0, height: 0 }
    } else {
        let prev = column_measured(t, i, k - 1, orc);
        let cz = measured(t, kids(t, i)[k - 1] as int, loose_box(), orc);
        Size {
            width: if cz.width > prev.width {
                cz.width
            } else {
                prev.width
            },
            height: spec_sat_add(prev.height as int, cz.height as int) as i64,
        }
    }
}

/// A stacked column outcome over one oracle: the result is the clamp of
/// the stack, and every stacked child's stored size is its own
/// measurement under the loose box, over the same oracle.
pub open spec fn column_sized(
    pre: Seq<Node>,
    post: Seq<Node>,
    id: int,
    c: Constraints,
    r: Size,
    orc: Seq<Size>,
) -> bool {
    let cs = kids(pre, id);
    &&& r == c.spec_apply(column_measured(pre, id, cs.len() as int, orc))
    &&& forall|k: int|
        0 <= k < cs.len() ==> (#[trigger] post[cs[k] as int]).area.size == measured(
            pre,
            cs[k] as int,
            loose_box(),
            orc,
        )
}

/// `measured` reads only the subtree: it survives changes elsewhere.
pub proof fn lemma_measured_frame(t1: Seq<Node>, t2: Seq<Node>, i: int, c: Constraints, orc: Seq<Size>)
    requires
        shape_ok(t1),
        links_ok(t2),
        0 <= i < t1.len(),
        i < t2.len(),
        sub_end(t1, i) <= t2.len(),
        forall|j: int| i <= j < sub_end(t1, i) ==> t2[j] == t1[j],
    ensures
        measured(t2, i, c, orc) == measured(t1, i, c, orc),
    decreases t1.len() - i, kids(t1, i).len() + 1,
{
    lemma_sub_end_bounds(t1, i);
    assert(t2[i] == t1[i]);
    if t1[i].layout_dirty {
        match t1[i].phase {
            NodePhase::Render { .. } => {
                if kids(t1, i).len() > 0 {
                    frame_child(t1, t2, i, 0, c, orc);
                }
            },
            NodePhase::Measurement { policy, .. } => match policy {
                MeasurePolicy::Column => {
                    lemma_column_measured_frame(t1, t2, i, kids(t1, i).len() as int, orc);
                },
                MeasurePolicy::Padding { start, end, top, bottom } => {
                    if kids(t1, i).len() > 0 {
                        let dw = spec_sat_add(start as int, end as int);
                        let dh = spec_sat_add(top as int, bottom as int);
                        frame_child(
                            t1,
                            t2,
                            i,
                            0,
                            c.spec_offset(spec_sat_sub(0, dw), spec_sat_sub(0, dh)),
                            orc,
                        );
                    }
                },
                MeasurePolicy::Fill { horizontal, vertical } => {
                    if kids(t1, i).len() > 0 {
                        frame_child(t1, t2, i, 0, spec_fill_constraints(c, horizontal, vertical), orc);
                    }
                },
                MeasurePolicy::Frame { width } => {
                    if kids(t1, i).len() > 0 {
                        let both = spec_sat_add(width as int, width as int);
                        frame_child(
                            t1,
                            t2,
                            i,
                            0,
                            c.spec_offset(spec_sat_sub(0, both), spec_sat_sub(0, both)),
                            orc,
                        );
                    }
                },
                _ => {},
            },
            _ => {},
        }
    }
}

/// Framing step for one child of a framed node.
proof fn frame_child(t1: Seq<Node>, t2: Seq<Node>, i: int, k: int, c: Constraints, orc: Seq<Size>)
    requires
        shape_ok(t1),
        links_ok(t2),
        0 <= i < t1.len(),
        i < t2.len(),
        sub_end(t1, i) <= t2.len(),
        forall|j: int| i <= j < sub_end(t1, i) ==> t2[j] == t1[j],
        0 <= k < kids(t1, i).len(),
    ensures
        measured(t2, kids(t1, i)[k] as int, c, orc) == measured(t1, kids(t1, i)[k] as int, c, orc),
    decreases t1.len() - i, 0int,
{
    let ck = kids(t1, i)[k] as int;
    lemma_sub_end_bounds(t1, i);
    lemma_sub_end_bounds(t1, ck);
    lemma_child_segment(t1, i, k);
    assert forall|j: int| ck <= j < sub_end(t1, ck) implies t2[j] == t1[j] by {
        assert(i <= j < sub_end(t1, i));
    }
    lemma_measured_frame(t1, t2, ck, c, orc);
}

/// `column_measured` reads only the subtree: it survives changes
/// elsewhere.
pub proof fn lemma_column_measured_frame(t1: Seq<Node>, t2: Seq<Node>, i: int, k: int, orc: Seq<Size>)
    requires
        shape_ok(t1),
        links_ok(t2),
        0 <= i < t1.len(),
        i < t2.len(),
        sub_end(t1, i) <= t2.len(),
        forall|j: int| i <= j < sub_end(t1, i) ==> t2[j] == t1[j],
        0 <= k <= kids(t1, i).len(),
    ensures
        column_measured(t2, i, k, orc) == column_measured(t1, i, k, orc),
    decreases t1.len() - i, k,
{
    lemma_sub_end_bounds(t1, i);
    assert(t2[i] == t1[i]);
    if k > 0 {
        lemma_column_measured_frame(t1, t2, i, k - 1, orc);
        frame_child(t1, t2, i, k - 1, loose_box(), orc);
    }
}

/// `measured` reads the oracle only inside the subtree: oracles agreeing
/// there agree on the result.
pub proof fn lemma_measured_oracle(t: Seq<Node>, i: int, c: Constraints, o1: Seq<Size>, o2: Seq<Size>)
    requires
        shape_ok(t),
        0 <= i < t.len(),
        forall|j: int| i <= j < sub_end(t, i) ==> o2[j] == o1[j],
    ensures
        measured(t, i, c, o2) == measured(t, i, c, o1),
    decreases t.len() - i, kids(t, i).len() + 1,
{
    lemma_sub_end_bounds(t, i);
    if t[i].layout_dirty && kids(t, i).len() > 0 {
        let c0 = kids(t, i)[0] as int;
        lemma_sub_end_bounds(t, c0);
        lemma_child_segment(t, i, 0);
        assert forall|j: int| c0 <= j < sub_end(t, c0) implies o2[j] == o1[j] by {
            assert(i <= j < sub_end(t, i));
        }
    }
    if t[i].layout_dirty {
        match t[i].phase {
            NodePhase::Render { .. } => {
                if kids(t, i).len() > 0 {
                    oracle_child(t, i, 0, c, o1, o2);
                }
            },
            NodePhase::Measurement { policy, .. } => match policy {
                MeasurePolicy::Column => {
                    lemma_column_measured_oracle(t, i, kids(t, i).len() as int, o1, o2);
                },
                MeasurePolicy::Padding { start, end, top, bottom } => {
                    if kids(t, i).len() > 0 {
                        let dw = spec_sat_add(start as int, end as int);
                        let dh = spec_sat_add(top as int, bottom as int);
                        oracle_child(
                            t,
                            i,
                            0,
                            c.spec_offset(spec_sat_sub(0, dw), spec_sat_sub(0, dh)),
                            o1,
                            o2,
                        );
                    }
                },
                MeasurePolicy::Fill { horizontal, vertical } => {
                    if kids(t, i).len() > 0 {
                        oracle_child(t, i, 0, spec_fill_constraints(c, horizontal, vertical), o1, o2);
                    }
                },
                MeasurePolicy::Frame { width } => {
                    if kids(t, i).len() > 0 {
                        let both = spec_sat_add(width as int, width as int);
                        oracle_child(
                            t,
                            i,
                            0,
                            c.spec_offset(spec_sat_sub(0, both), spec_sat_sub(0, both)),
                            o1,
                            o2,
                        );
                    }
                },
                _ => {},
            },
            _ => {},
        }
    }
}

/// Oracle-framing step for one child of a node: agreement on the
/// child's own segment is enough.
proof fn oracle_child(t: Seq<Node>, i: int, k: int, c: Constraints, o1: Seq<Size>, o2: Seq<Size>)
    requires
        shape_ok(t),
        0 <= i < t.len(),
        0 <= k < kids(t, i).len(),
        forall|j: int|
            (kids(t, i)[k] as int) <= j < sub_end(t, kids(t, i)[k] as int) ==> o2[j] == o1[j],
    ensures
        measured(t, kids(t, i)[k] as int, c, o2) == measured(t, kids(t, i)[k] as int, c, o1),
    decreases t.len() - i, 0int,
{
    let ck = kids(t, i)[k] as int;
    lemma_sub_end_bounds(t, i);
    lemma_sub_end_bounds(t, ck);
    lemma_measured_oracle(t, ck, c, o1, o2);
}

/// `column_measured` reads the oracle only inside the already-stacked
/// children's segments: oracles agreeing up to the stacking frontier
/// agree on the stack.
pub proof fn lemma_column_measured_oracle(t: Seq<Node>, i: int, k: int, o1: Seq<Size>, o2: Seq<Size>)
    requires
        shape_ok(t),
        0 <= i < t.len(),
        0 <= k <= kids(t, i).len(),
        forall|j: int| i + 1 <= j < frontier(t, i, k) ==> o2[j] == o1[j],
    ensures
        column_measured(t, i, k, o2) == column_measured(t, i, k, o1),
    decreases t.len() - i, k,
{
    if k > 0 {
        let ck = kids(t, i)[k - 1] as int;
        crate::tree::lemma_frontier_step(t, i, k - 1);
        assert(node_spans_ok(t, i));
        assert(ck == frontier(t, i, k - 1));
        assert(sub_end(t, ck) == frontier(t, i, k)) by {
            if k < kids(t, i).len() {
                assert(kids(t, i)[k] == sub_end(t, kids(t, i)[k - 1] as int));
            } else {
                assert(sub_end(t, i) == sub_end(t, kids(t, i)[kids(t, i).len() - 1] as int));
            }
        }
        assert forall|j: int| i + 1 <= j < frontier(t, i, k - 1) implies o2[j] == o1[j] by {
            crate::tree::lemma_frontier_mono(t, i, k - 1, k);
        }
        lemma_column_measured_oracle(t, i, k - 1, o1, o2);
        assert forall|j: int| ck <= j < sub_end(t, ck) implies o2[j] == o1[j] by {
            lemma_sub_end_bounds(t, ck);
        }
        oracle_child(t, i, k - 1, loose_box(), o1, o2);
    }
}


/// The node data `measured` actually reads: phase, children, the layout
/// flag, and the cached area only where that flag is clean.
pub open spec fn measure_view(a: Node, b: Node) -> bool {
    &&& b.phase == a.phase
    &&& b.children@ == a.children@
    &&& b.layout_dirty == a.layout_dirty
    &&& (!a.layout_dirty ==> b.area.size == a.area.size)
}

/// `measured` depends only on what it reads: two arenas agreeing on
/// phases, children, flags and clean sizes across the subtree measure
/// alike.
pub proof fn lemma_measured_view(t1: Seq<Node>, t2: Seq<Node>, i: int, c: Constraints, orc: Seq<Size>)
    requires
        shape_ok(t1),
        links_ok(t2),
        0 <= i < t1.len(),
        i < t2.len(),
        sub_end(t1, i) <= t2.len(),
        forall|j: int| i <= j < sub_end(t1, i) ==> measure_view(t1[j], #[trigger] t2[j]),
    ensures
        measured(t2, i, c, orc) == measured(t1, i, c, orc),
    decreases t1.len() - i, kids(t1, i).len() + 1,
{
    lemma_sub_end_bounds(t1, i);
    assert(measure_view(t1[i], t2[i]));
    if t1[i].layout_dirty {
        match t1[i].phase {
            NodePhase::Render { .. } => {
                if kids(t1, i).len() > 0 {
                    view_child(t1, t2, i, 0, c, orc);
                }
            },
            NodePhase::Measurement { policy, .. } => match policy {
                MeasurePolicy::Column => {
                    lemma_column_measured_view(t1, t2, i, kids(t1, i).len() as int, orc);
                },
                MeasurePolicy::Padding { start, end, top, bottom } => {
                    if kids(t1, i).len() > 0 {
                        let dw = spec_sat_add(start as int, end as int);
                        let dh = spec_sat_add(top as int, bottom as int);
                        view_child(
                            t1,
                            t2,
                            i,
                            0,
                            c.spec_offset(spec_sat_sub(0, dw), spec_sat_sub(0, dh)),
                            orc,
                        );
                    }
                },
                MeasurePolicy::Fill { horizontal, vertical } => {
                    if kids(t1, i).len() > 0 {
                        view_child(t1, t2, i, 0, spec_fill_constraints(c, horizontal, vertical), orc);
                    }
                },
                MeasurePolicy::Frame { width } => {
                    if kids(t1, i).len() > 0 {
                        let both = spec_sat_add(width as int, width as int);
                        view_child(
                            t1,
                            t2,
                            i,
                            0,
                            c.spec_offset(spec_sat_sub(0, both), spec_sat_sub(0, both)),
                            orc,
                        );
                    }
                },
                _ => {},
            },
            _ => {},
        }
    }
}

/// View-framing step for one child of a node.
proof fn view_child(t1: Seq<Node>, t2: Seq<Node>, i: int, k: int, c: Constraints, orc: Seq<Size>)
    requires
        shape_ok(t1),
        links_ok(t2),
        0 <= i < t1.len(),
        i < t2.len(),
        sub_end(t1, i) <= t2.len(),
        forall|j: int| i <= j < sub_end(t1, i) ==> measure_view(t1[j], #[trigger] t2[j]),
        0 <= k < kids(t1, i).len(),
    ensures
        measured(t2, kids(t1, i)[k] as int, c, orc) == measured(t1, kids(t1, i)[k] as int, c, orc),
    decreases t1.len() - i, 0int,
{
    let ck = kids(t1, i)[k] as int;
    lemma_sub_end_bounds(t1, i);
    lemma_sub_end_bounds(t1, ck);
    lemma_child_segment(t1, i, k);
    assert forall|j: int| ck <= j < sub_end(t1, ck) implies measure_view(t1[j], #[trigger] t2[j]) by {
        assert(i <= j < sub_end(t1, i));
    }
    lemma_measured_view(t1, t2, ck, c, orc);
}

/// The stack reads only what `measured` reads of each stacked child.
pub proof fn lemma_column_measured_view(t1: Seq<Node>, t2: Seq<Node>, i: int, k: int, orc: Seq<Size>)
    requires
        shape_ok(t1),
        links_ok(t2),
        0 <= i < t1.len(),
        i < t2.len(),
        sub_end(t1, i) <= t2.len(),
        forall|j: int| i <= j < sub_end(t1, i) ==> measure_view(t1[j], #[trigger] t2[j]),
        0 <= k <= kids(t1, i).len(),
    ensures
        column_measured(t2, i, k, orc) == column_measured(t1, i, k, orc),
    decreases t1.len() - i, k,
{
    lemma_sub_end_bounds(t1, i);
    assert(measure_view(t1[i], t2[i]));
    if k > 0 {
        lemma_column_measured_view(t1, t2, i, k - 1, orc);
        view_child(t1, t2, i, k - 1, loose_box(), orc);
    }
}

impl Tree {
    /// Measures the node at `id` under `c`.
    ///
    /// A clean node returns its cached size and changes nothing at all.
    /// A dirty node dispatches on its phase: a virtual node is zero-sized,
    /// a render node sizes itself as its first child, a measurement node
    /// runs its policy, and a subcompose node runs its compose policy
    /// against its slot registry. The measured size is stored in the
    /// node's area and its layout flag is cleared; its origin is left to
    /// its parent.
    #[verifier::loop_isolation(false)]
    pub fn measure_node(&mut self, regs: &mut Vec<Registry>, id: usize, c: Constraints) -> (r: Size)
        requires
            shape_ok(old(self).nodes@),
            id < old(self).nodes@.len(),
            c.wf(),
            regs_ok(old(self).nodes@, old(regs)@),
            regs_wf(old(regs)@),
            pols_basic(old(self).nodes@),
        ensures
            final(self).nodes@.len() == old(self).nodes@.len(),
            same_links(old(self).nodes@, final(self).nodes@),
            shape_ok(final(self).nodes@),
            forall|j: int|
                0 <= j < old(self).nodes@.len() && !(id <= j < sub_end(
                    old(self).nodes@,
                    id as int,
                )) ==> final(self).nodes@[j] == old(self).nodes@[j],
            forall|j: int|
                id <= j < sub_end(old(self).nodes@, id as int) ==> measure_keeps(
                    old(self).nodes@[j],
                    #[trigger] final(self).nodes@[j],
                ),
            r == final(self).nodes@[id as int].area.size,
            !final(self).nodes@[id as int].layout_dirty,
            final(self).nodes@[id as int].area.origin == old(self).nodes@[id as int].area.origin,
            !old(self).nodes@[id as int].layout_dirty ==> final(self).nodes@ == old(self).nodes@
                && final(regs)@ == old(regs)@ && r == old(self).nodes@[id as int].area.size,
            final(regs)@.len() == old(regs)@.len(),
            regs_wf(final(regs)@),
            regs_ok(final(self).nodes@, final(regs)@),
            pols_basic(final(self).nodes@),
            old(self).nodes@[id as int].layout_dirty ==> dirty_measure_ok(
                old(self).nodes@,
                final(self).nodes@,
                id as int,
                c,
                r,
            ),
            exists|orc: Seq<Size>|
                #![trigger measured(old(self).nodes@, id as int, c, orc)]
                r == measured(old(self).nodes@, id as int, c, orc),
            (old(self).nodes@[id as int].phase matches NodePhase::Measurement {
                policy: MeasurePolicy::Column,
                ..
            } && old(self).nodes@[id as int].layout_dirty) ==> exists|orc: Seq<Size>|
                #![trigger column_sized(old(self).nodes@, final(self).nodes@, id as int, c, r, orc)]
                column_sized(old(self).nodes@, final(self).nodes@, id as int, c, r, orc),
        decreases regs@.len(), self.nodes@.len() - id, 3int,
    {
        let ghost pre = self.nodes@;
        let ghost regs0 = regs@;
        proof {
            lemma_sub_end_bounds(pre, id as int);
        }
        if !self.nodes[id].layout_dirty {
            let cached = self.nodes[id].area.size;
            proof {
                let orc0 = Seq::<Size>::new(pre.len(), |j: int| Size { width: 0, height: 0 });
                assert(cached == measured(pre, id as int, c, orc0));
            }
            return cached;
        }
        let mpol: Option<MeasurePolicy> = match &self.nodes[id].phase {
            NodePhase::Measurement { policy, .. } => Some(*policy),
            _ => None,
        };
        let rix_opt: Option<usize> = match &self.nodes[id].phase {
            NodePhase::MeasurementCompose { registry, .. } => Some(*registry),
            _ => None,
        };
        let is_render = matches!(&self.nodes[id].phase, NodePhase::Render { .. });
        let size: Size;
        if let Some(pol) = mpol {
            size = match pol {
                MeasurePolicy::Fixed(s) => c.apply(s),
                MeasurePolicy::MinSize => c.min,
                MeasurePolicy::Column => self.run_column(regs, id, c),
                MeasurePolicy::Padding { start, end, top, bottom } => self.run_padding(
                    regs,
                    id,
                    c,
                    start,
                    end,
                    top,
                    bottom,
                ),
                MeasurePolicy::Fill { horizontal, vertical } => self.run_fill(
                    regs,
                    id,
                    c,
                    horizontal,
                    vertical,
                ),
                MeasurePolicy::Frame { width } => self.run_frame(regs, id, c, width),
            };
        } else if let Some(rix) = rix_opt {
            proof {
                assert(reg_in_range(pre[id as int].phase, 0, regs0.len() as int));
                assert(crate::compose::node_pol_basic(pre[id as int]));
            }
            size = match &self.nodes[id].phase {
                NodePhase::MeasurementCompose { policy, .. } => match policy {
                    ComposePolicy::LazyColumn { count, item } => run_lazy(
                        &mut regs[rix],
                        *count,
                        item,
                        c,
                    ),
                    ComposePolicy::TwoPass { content } => run_two_pass(&mut regs[rix], content, c),
                },
                _ => Size { width: 0, height: 0 },
            };
        } else if is_render {
            if self.nodes[id].children.len() > 0 {
                let ch = self.nodes[id].children[0];
                proof {
                    assert(ch == kids(pre, id as int)[0]);
                    lemma_sub_end_bounds(pre, ch as int);
                    lemma_child_segment(pre, id as int, 0);
                    assert(node_spans_ok(pre, id as int));
                }
                size = self.measure_node(regs, ch, c);
                proof {
                    assert(self.nodes@[id as int] == pre[id as int]);
                }
            } else {
                size = Size { width: 0, height: 0 };
            }
        } else {
            size = Size { width: 0, height: 0 };
        }
        let ghost mid = self.nodes@;
        let bump = match &self.nodes[id].phase {
            NodePhase::Measurement { .. } => true,
            NodePhase::MeasurementCompose { .. } => true,
            _ => false,
        };
        let node = &mut self.nodes[id];
        node.area.size = size;
        node.layout_dirty = false;
        if bump {
            if node.measure_runs < u64::MAX {
                node.measure_runs = node.measure_runs + 1;
            }
        }
        proof {
            let post = self.nodes@;
            assert(same_links(pre, post));
            lemma_same_links_shape(pre, post);
            assert forall|j: int|
                0 <= j < pre.len() && !(id <= j < sub_end(pre, id as int)) implies post[j] == pre[j]
            by {
                assert(post[j] == mid[j]);
            }
            assert(regs_ok(post, regs@)) by {
                assert forall|j: int|
                    0 <= j < post.len() implies reg_in_range(
                    (#[trigger] post[j]).phase,
                    0,
                    regs@.len() as int,
                ) by {
                    assert(post[j].phase == pre[j].phase);
                    assert(reg_in_range(pre[j].phase, 0, regs0.len() as int));
                }
            }
            assert(pols_basic(post)) by {
                assert forall|j: int|
                    0 <= j < post.len() implies crate::compose::node_pol_basic(#[trigger] post[j])
                by {
                    assert(post[j].phase == pre[j].phase);
                    assert(crate::compose::node_pol_basic(pre[j]));
                }
            }
            let cs = kids(pre, id as int);
            assert forall|kk: int|
                0 <= kk < cs.len() implies id < (cs[kk] as int) && ((cs[kk] as int) < pre.len())
            by {
                assert(kids(pre, id as int)[kk] == cs[kk]);
            }
            assert(mid[id as int].phase == pre[id as int].phase);
            match pre[id as int].phase {
                NodePhase::Virtual => {
                    assert(post[id as int].measure_runs == pre[id as int].measure_runs);
                },
                NodePhase::Render { .. } => {
                    if cs.len() > 0 {
                        let ch = cs[0] as int;
                        assert(post[ch] == mid[ch]);
                    }
                    assert(post[id as int].measure_runs == pre[id as int].measure_runs);
                },
                NodePhase::Measurement { policy: mp, .. } => {
                    assert(post[id as int].measure_runs == spec_bump(pre[id as int].measure_runs));
                    match mp {
                        MeasurePolicy::Fixed(sv) => {},
                        MeasurePolicy::MinSize => {},
                        MeasurePolicy::Column => {
                            assert(column_ok(pre, mid, id as int, c, size));
                            assert forall|kk: int|
                                0 <= kk < cs.len() implies post[cs[kk] as int] == mid[cs[
                                kk] as int] by {
                                assert(id < cs[kk] as int);
                            }
                            assert(stack_width(post, cs, cs.len() as int) == stack_width(
                                mid,
                                cs,
                                cs.len() as int,
                            ) && stack_height(post, cs, cs.len() as int) == stack_height(
                                mid,
                                cs,
                                cs.len() as int,
                            )) by {
                                lemma_stack_frame(mid, post, cs, cs.len() as int);
                            }
                            assert forall|kk: int|
                                0 <= kk < cs.len() implies #[trigger] column_child_ok(
                                pre,
                                post,
                                cs,
                                kk,
                            ) by {
                                assert(column_child_ok(pre, mid, cs, kk));
                                assert(stack_height(post, cs, kk) == stack_height(mid, cs, kk))
                                    by {
                                    lemma_stack_frame(mid, post, cs, kk);
                                }
                            }
                            assert(column_ok(pre, post, id as int, c, size));
                        },
                        MeasurePolicy::Padding { .. } => {
                            if cs.len() > 0 {
                                let ch = cs[0] as int;
                                assert(post[ch] == mid[ch]);
                            }
                        },
                        MeasurePolicy::Fill { .. } => {
                            if cs.len() > 0 {
                                let ch = cs[0] as int;
                                assert(post[ch] == mid[ch]);
                            }
                        },
                        MeasurePolicy::Frame { .. } => {
                            if cs.len() > 0 {
                                let ch = cs[0] as int;
                                assert(post[ch] == mid[ch]);
                            }
                        },
                    }
                },
                NodePhase::MeasurementCompose { .. } => {
                    assert(post[id as int].measure_runs == spec_bump(pre[id as int].measure_runs));
                },
            }
            assert(dirty_measure_ok(pre, post, id as int, c, size));
            match pre[id as int].phase {
                NodePhase::Virtual => {
                    let orc0 = Seq::<Size>::new(pre.len(), |j: int| Size { width: 0, height: 0 });
                    assert(size == measured(pre, id as int, c, orc0));
                },
                NodePhase::Render { .. } => {
                    if cs.len() > 0 {
                        let ch = cs[0] as int;
                        let orc_c = choose|orc: Seq<Size>|
                            #![trigger measured(pre, ch, c, orc)]
                            size == measured(pre, ch, c, orc);
                        assert(size == measured(pre, id as int, c, orc_c));
                    } else {
                        let orc0 = Seq::<Size>::new(
                            pre.len(),
                            |j: int| Size { width: 0, height: 0 },
                        );
                        assert(size == measured(pre, id as int, c, orc0));
                    }
                },
                NodePhase::Measurement { policy: mp, .. } => {
                    match mp {
                        MeasurePolicy::Fixed(sv) => {
                            let orc0 = Seq::<Size>::new(
                                pre.len(),
                                |j: int| Size { width: 0, height: 0 },
                            );
                            assert(size == measured(pre, id as int, c, orc0));
                        },
                        MeasurePolicy::MinSize => {
                            let orc0 = Seq::<Size>::new(
                                pre.len(),
                                |j: int| Size { width: 0, height: 0 },
                            );
                            assert(size == measured(pre, id as int, c, orc0));
                        },
                        MeasurePolicy::Column => {
                            let orc_c = choose|orc: Seq<Size>|
                                #![trigger column_sized(pre, mid, id as int, c, size, orc)]
                                column_sized(pre, mid, id as int, c, size, orc);
                            assert(size == measured(pre, id as int, c, orc_c));
                            assert forall|kk: int|
                                0 <= kk < cs.len() implies (#[trigger] post[cs[kk] as int]).area.size
                                == measured(pre, cs[kk] as int, loose_box(), orc_c) by {
                                assert(post[cs[kk] as int] == mid[cs[kk] as int]);
                            }
                            assert(column_sized(pre, post, id as int, c, size, orc_c));
                        },
                        MeasurePolicy::Padding { start, end, top, bottom } => {
                            if cs.len() > 0 {
                                let ch = cs[0] as int;
                                let dw = spec_sat_add(start as int, end as int);
                                let dh = spec_sat_add(top as int, bottom as int);
                                let cc = c.spec_offset(spec_sat_sub(0, dw), spec_sat_sub(0, dh));
                                let orc_c = choose|orc: Seq<Size>|
                                    #![trigger measured(pre, ch, cc, orc)]
                                    size == c.spec_apply(
                                        Size {
                                            width: spec_sat_add(
                                                measured(pre, ch, cc, orc).width as int,
                                                dw,
                                            ) as i64,
                                            height: spec_sat_add(
                                                measured(pre, ch, cc, orc).height as int,
                                                dh,
                                            ) as i64,
                                        },
                                    );
                                assert(size == measured(pre, id as int, c, orc_c));
                            } else {
                                let orc0 = Seq::<Size>::new(
                                    pre.len(),
                                    |j: int| Size { width: 0, height: 0 },
                                );
                                assert(size == measured(pre, id as int, c, orc0));
                            }
                        },
                        MeasurePolicy::Fill { horizontal, vertical } => {
                            if cs.len() > 0 {
                                let ch = cs[0] as int;
                                let fc = spec_fill_constraints(c, horizontal, vertical);
                                let orc_c = choose|orc: Seq<Size>|
                                    #![trigger measured(pre, ch, fc, orc)]
                                    size == measured(pre, ch, fc, orc);
                                assert(size == measured(pre, id as int, c, orc_c));
                            } else {
                                let orc0 = Seq::<Size>::new(
                                    pre.len(),
                                    |j: int| Size { width: 0, height: 0 },
                                );
                                assert(size == measured(pre, id as int, c, orc0));
                            }
                        },
                        MeasurePolicy::Frame { width } => {
                            if cs.len() > 0 {
                                let ch = cs[0] as int;
                                let both = spec_sat_add(width as int, width as int);
                                let cc = c.spec_offset(spec_sat_sub(0, both), spec_sat_sub(0, both));
                                let orc_c = choose|orc: Seq<Size>|
                                    #![trigger measured(pre, ch, cc, orc)]
                                    size == (Size {
                                        width: spec_sat_add(
                                            measured(pre, ch, cc, orc).width as int,
                                            both,
                                        ) as i64,
                                        height: spec_sat_add(
                                            measured(pre, ch, cc, orc).height as int,
                                            both,
                                        ) as i64,
                                    });
                                assert(size == measured(pre, id as int, c, orc_c));
                            } else {
                                let orc0 = Seq::<Size>::new(
                                    pre.len(),
                                    |j: int| Size { width: 0, height: 0 },
                                );
                                assert(size == measured(pre, id as int, c, orc0));
                            }
                        },
                    }
                },
                NodePhase::MeasurementCompose { .. } => {
                    let orc_m = Seq::<Size>::new(
                        pre.len(),
                        |j: int|
                            if j == id as int {
                                size
                            } else {
                                Size { width: 0, height: 0 }
                            },
                    );
                    assert(c.spec_apply(orc_m[id as int]) == size);
                    assert(size == measured(pre, id as int, c, orc_m));
                },
            }
        }
        size
    }

    /// Stacks the children vertically: each is measured under loose
    /// constraints and placed below the previous one; the result is the
    /// stack clamped into `c`.
    #[verifier::loop_isolation(false)]
    fn run_column(&mut self, regs: &mut Vec<Registry>, id: usize, c: Constraints) -> (r: Size)
        requires
            shape_ok(old(self).nodes@),
            id < old(self).nodes@.len(),
            c.wf(),
            regs_ok(old(self).nodes@, old(regs)@),
            regs_wf(old(regs)@),
            pols_basic(old(self).nodes@),
        ensures
            final(self).nodes@.len() == old(self).nodes@.len(),
            same_links(old(self).nodes@, final(self).nodes@),
            shape_ok(final(self).nodes@),
            forall|j: int|
                0 <= j < old(self).nodes@.len() && !(id < j < sub_end(
                    old(self).nodes@,
                    id as int,
                )) ==> final(self).nodes@[j] == old(self).nodes@[j],
            forall|j: int|
                id < j < sub_end(old(self).nodes@, id as int) ==> measure_keeps(
                    old(self).nodes@[j],
                    #[trigger] final(self).nodes@[j],
                ),
            final(regs)@.len() == old(regs)@.len(),
            regs_wf(final(regs)@),
            column_ok(old(self).nodes@, final(self).nodes@, id as int, c, r),
            exists|orc: Seq<Size>|
                #![trigger column_sized(old(self).nodes@, final(self).nodes@, id as int, c, r, orc)]
                column_sized(old(self).nodes@, final(self).nodes@, id as int, c, r, orc),
        decreases regs@.len(), self.nodes@.len() - id, 2int,
    {
        let ghost pre = self.nodes@;
        let ghost regs0 = regs@;
        proof {
            lemma_sub_end_bounds(pre, id as int);
            assert(node_spans_ok(pre, id as int));
        }
        let n = self.nodes[id].children.len();
        let ghost mut orc_acc = Seq::<Size>::new(pre.len(), |j: int| Size { width: 0, height: 0 });
        let mut k: usize = 0;
        let mut w: i64 = 0;
        let mut h: i64 = 0;
        while k < n
            invariant
                k <= n,
                n == kids(pre, id as int).len(),
                self.nodes@.len() == pre.len(),
                same_links(pre, self.nodes@),
                shape_ok(self.nodes@),
                frontier(pre, id as int, k as int) <= sub_end(pre, id as int),
                forall|j: int|
                    0 <= j < pre.len() && !(id + 1 <= j < frontier(pre, id as int, k as int))
                        ==> self.nodes@[j] == pre[j],
                forall|j: int|
                    id + 1 <= j < frontier(pre, id as int, k as int) ==> measure_keeps(
                        pre[j],
                        #[trigger] self.nodes@[j],
                    ),
                regs@.len() == regs0.len(),
                regs_wf(regs@),
                regs_ok(self.nodes@, regs@),
                pols_basic(self.nodes@),
                w == stack_width(self.nodes@, kids(pre, id as int), k as int),
                h == stack_height(self.nodes@, kids(pre, id as int), k as int),
                w == column_measured(pre, id as int, k as int, orc_acc).width,
                h == column_measured(pre, id as int, k as int, orc_acc).height,
                forall|kk: int|
                    0 <= kk < k ==> (#[trigger] self.nodes@[kids(pre, id as int)[kk] as int]).area.size
                        == measured(pre, kids(pre, id as int)[kk] as int, loose_box(), orc_acc),
                forall|kk: int|
                    0 <= kk < k ==> column_child_ok(
                        pre,
                        self.nodes@,
                        kids(pre, id as int),
                        kk,
                    ),
            decreases n - k,
        {
            let ghost s = self.nodes@;
            let ghost cs = kids(pre, id as int);
            let cid = self.nodes[id].children[k];
            proof {
                assert(cid == cs[k as int]);
                lemma_sub_end_bounds(pre, cid as int);
                lemma_child_segment(pre, id as int, k as int);
                lemma_same_links_shape(pre, s);
            }
            let lc = Constraints::default();
            let sz = self.measure_node(regs, cid, lc);
            let ghost s2 = self.nodes@;
            self.shift_subtree(cid, 0, h);
            proof {
                let u = self.nodes@;
                assert forall|j: int| 0 <= j < pre.len() implies kids(pre, j) == #[trigger] kids(
                    u,
                    j,
                ) by {
                    assert(kids(s, j) == kids(pre, j));
                    assert(kids(s2, j) == kids(s, j));
                    if cid as int <= j < sub_end(s2, cid as int) {
                        assert(u[j] == shifted_node(s2[j], 0, h as int));
                    } else {
                        assert(u[j] == s2[j]);
                    }
                }
                assert(same_links(pre, u));
                lemma_same_links_shape(pre, u);
                assert(sub_end(s, cid as int) == sub_end(pre, cid as int));
                assert(sub_end(s2, cid as int) == sub_end(pre, cid as int)) by {
                    lemma_same_links_shape(pre, s2);
                }
                if k + 1 < n {
                    assert(kids(pre, id as int)[k + 1] == sub_end(pre, cs[k as int] as int));
                } else {
                    assert(sub_end(pre, id as int) == sub_end(pre, cs[n - 1] as int));
                }
                assert(u[cid as int] == shifted_node(s2[cid as int], 0, h as int));
                assert(spec_sat_add(s2[cid as int].area.origin.x as int, 0)
                    == s2[cid as int].area.origin.x as int);
                assert(s[cid as int] == pre[cid as int]);
                assert(s2[cid as int].area.origin == pre[cid as int].area.origin);
                assert(sz == s2[cid as int].area.size);
                assert(u[cid as int].area.size == sz);
                assert(!u[cid as int].layout_dirty);
                assert forall|kk: int|
                    0 <= kk < k implies ((cs[kk] as int) < pre.len()) && u[cs[kk] as int] == s[cs[
                    kk] as int] by {
                    assert((cs[kk] as int) == frontier(pre, id as int, kk));
                    crate::tree::lemma_frontier_step(pre, id as int, kk);
                    crate::tree::lemma_frontier_mono(pre, id as int, kk + 1, k as int);
                    assert((cs[kk] as int) < cid as int);
                    assert(s2[cs[kk] as int] == s[cs[kk] as int]);
                    assert(u[cs[kk] as int] == s2[cs[kk] as int]);
                }
                assert forall|kk: int| 0 <= kk < k + 1 implies column_child_ok(
                    pre,
                    u,
                    cs,
                    kk,
                ) by {
                    if kk < k {
                        assert(u[cs[kk] as int] == s[cs[kk] as int]);
                        assert(column_child_ok(pre, s, cs, kk));
                        assert(stack_height(u, cs, kk) == stack_height(s, cs, kk)) by {
                            lemma_stack_frame(s, u, cs, kk);
                        }
                    } else {
                        assert(stack_height(u, cs, k as int) == stack_height(s, cs, k as int)) by {
                            lemma_stack_frame(s, u, cs, k as int);
                        }
                        assert(u[cid as int].area.origin.y == spec_sat_add(
                            pre[cid as int].area.origin.y as int,
                            stack_height(u, cs, k as int),
                        ));
                    }
                }
                assert(stack_width(u, cs, k + 1) == (if sz.width as int > stack_width(u, cs, k as int) {
                    sz.width as int
                } else {
                    stack_width(u, cs, k as int)
                }));
                assert(stack_width(u, cs, k as int) == stack_width(s, cs, k as int)) by {
                    lemma_stack_frame(s, u, cs, k as int);
                }
                assert(stack_height(u, cs, k as int) == stack_height(s, cs, k as int)) by {
                    lemma_stack_frame(s, u, cs, k as int);
                }
            }
            proof {
                assert(lc == loose_box());
                let orc_k = choose|orc: Seq<Size>|
                    #![trigger measured(s, cid as int, lc, orc)]
                    sz == measured(s, cid as int, lc, orc);
                assert forall|j: int|
                    cid as int <= j < sub_end(pre, cid as int) implies s[j] == pre[j] by {
                    assert(!(id + 1 <= j < frontier(pre, id as int, k as int)));
                }
                lemma_measured_frame(pre, s, cid as int, lc, orc_k);
                assert(sz == measured(pre, cid as int, loose_box(), orc_k));
                let orc_new = Seq::<Size>::new(
                    pre.len(),
                    |j: int|
                        if cid as int <= j < sub_end(pre, cid as int) {
                            orc_k[j]
                        } else {
                            orc_acc[j]
                        },
                );
                assert forall|j: int|
                    cid as int <= j < sub_end(pre, cid as int) implies orc_new[j] == orc_k[j] by {}
                lemma_measured_oracle(pre, cid as int, loose_box(), orc_k, orc_new);
                assert forall|j: int|
                    id + 1 <= j < frontier(pre, id as int, k as int) implies orc_new[j] == orc_acc[
                    j] by {}
                lemma_column_measured_oracle(pre, id as int, k as int, orc_acc, orc_new);
                assert(column_measured(pre, id as int, k as int, orc_new) == (Size {
                    width: w,
                    height: h,
                }));
                assert(measured(pre, cid as int, loose_box(), orc_new) == sz);
                let u = self.nodes@;
                assert forall|kk: int|
                    0 <= kk < k + 1 implies (#[trigger] u[cs[kk] as int]).area.size == measured(
                    pre,
                    cs[kk] as int,
                    loose_box(),
                    orc_new,
                ) by {
                    let ck = cs[kk] as int;
                    if kk < k {
                        assert(u[ck] == s[ck]);
                        assert(s[ck].area.size == measured(pre, ck, loose_box(), orc_acc));
                        lemma_sub_end_bounds(pre, ck);
                        lemma_child_segment(pre, id as int, kk);
                        assert(ck == frontier(pre, id as int, kk));
                        assert(sub_end(pre, ck) == frontier(pre, id as int, kk + 1)) by {
                            assert(kids(pre, id as int)[kk + 1] == sub_end(
                                pre,
                                kids(pre, id as int)[kk] as int,
                            ));
                        }
                        crate::tree::lemma_frontier_mono(pre, id as int, kk + 1, k as int);
                        assert forall|j: int|
                            ck <= j < sub_end(pre, ck) implies orc_new[j] == orc_acc[j] by {
                            assert(j < cid as int);
                        }
                        lemma_measured_oracle(pre, ck, loose_box(), orc_acc, orc_new);
                    } else {
                        assert(u[cid as int].area.size == sz);
                    }
                }
                assert(column_measured(pre, id as int, k + 1, orc_new) == (Size {
                    width: if sz.width > w {
                        sz.width
                    } else {
                        w
                    },
                    height: spec_sat_add(h as int, sz.height as int) as i64,
                }));
                orc_acc = orc_new;
            }
            h = sat_add(h, sz.height);
            if sz.width > w {
                w = sz.width;
            }
            k += 1;
        }
        let out = c.apply(Size { width: w, height: h });
        proof {
            assert(out == c.spec_apply(
                column_measured(pre, id as int, kids(pre, id as int).len() as int, orc_acc),
            ));
            assert(column_sized(pre, self.nodes@, id as int, c, out, orc_acc));
        }
        out
    }
}

/// One stacked child: measured, clean, and moved down by the heights
/// before it.
pub open spec fn column_child_ok(pre: Seq<Node>, post: Seq<Node>, cs: Seq<usize>, k: int) -> bool {
    &&& !post[cs[k] as int].layout_dirty
    &&& post[cs[k] as int].area.origin.x == pre[cs[k] as int].area.origin.x
    &&& post[cs[k] as int].area.origin.y == spec_sat_add(
        pre[cs[k] as int].area.origin.y as int,
        stack_height(post, cs, k),
    )
}

/// What a column measurement produces: the clamped stack of the final
/// child sizes, each child placed below the previous ones.
pub open spec fn column_ok(pre: Seq<Node>, post: Seq<Node>, id: int, c: Constraints, r: Size) -> bool {
    let cs = kids(pre, id);
    &&& r == c.spec_apply(
        Size {
            width: stack_width(post, cs, cs.len() as int) as i64,
            height: stack_height(post, cs, cs.len() as int) as i64,
        },
    )
    &&& forall|k: int| 0 <= k < cs.len() ==> #[trigger] column_child_ok(pre, post, cs, k)
}

/// What a dirty measurement produces, by phase: the exact result for each
/// behavior, over the final states of the children it measured.
pub open spec fn dirty_measure_ok(pre: Seq<Node>, post: Seq<Node>, id: int, c: Constraints, r: Size) -> bool {
    match pre[id].phase {
        NodePhase::Virtual => r == (Size { width: 0, height: 0 }) && post[id].measure_runs
            == pre[id].measure_runs,
        NodePhase::Render { .. } => (kids(pre, id).len() > 0 ==> {
            &&& r == post[kids(pre, id)[0] as int].area.size
            &&& !post[kids(pre, id)[0] as int].layout_dirty
        }) && (kids(pre, id).len() == 0 ==> r == (Size { width: 0, height: 0 }))
            && post[id].measure_runs == pre[id].measure_runs,
        NodePhase::Measurement { policy, .. } => {
            &&& post[id].measure_runs == spec_bump(pre[id].measure_runs)
            &&& match policy {
                MeasurePolicy::Fixed(s) => r == c.spec_apply(s),
                MeasurePolicy::MinSize => r == c.min,
                MeasurePolicy::Column => column_ok(pre, post, id, c, r),
                MeasurePolicy::Padding { start, end, top, bottom } => padding_ok(
                    pre,
                    post,
                    id,
                    c,
                    start as int,
                    end as int,
                    top as int,
                    bottom as int,
                    r,
                ),
                MeasurePolicy::Fill { horizontal, vertical } => fill_ok(
                    pre,
                    post,
                    id,
                    c,
                    horizontal,
                    vertical,
                    r,
                ),
                MeasurePolicy::Frame { width } => frame_ok(pre, post, id, c, width as int, r),
            }
        },
        NodePhase::MeasurementCompose { .. } => {
            &&& post[id].measure_runs == spec_bump(pre[id].measure_runs)
            &&& c.min.width <= r.width <= c.max.width
            &&& c.min.height <= r.height <= c.max.height
        },
    }
}

/// What a padding measurement produces: the single child measured under
/// constraints shrunk by the padding, moved to the top-start inset, and
/// the padded child size clamped back into `c`.
pub open spec fn padding_ok(
    pre: Seq<Node>,
    post: Seq<Node>,
    id: int,
    c: Constraints,
    start: int,
    end: int,
    top: int,
    bottom: int,
    r: Size,
) -> bool {
    let cs = kids(pre, id);
    let h = spec_sat_add(start, end);
    let v = spec_sat_add(top, bottom);
    if cs.len() == 0 {
        r == c.spec_apply(Size { width: 0, height: 0 })
    } else {
        let ch = cs[0] as int;
        &&& !post[ch].layout_dirty
        &&& post[ch].area.origin.x == spec_sat_add(pre[ch].area.origin.x as int, start)
        &&& post[ch].area.origin.y == spec_sat_add(pre[ch].area.origin.y as int, top)
        &&& r.width == crate::constraints::spec_clamp(
            spec_sat_add(post[ch].area.size.width as int, h),
            c.min.width as int,
            c.max.width as int,
        )
        &&& r.height == crate::constraints::spec_clamp(
            spec_sat_add(post[ch].area.size.height as int, v),
            c.min.height as int,
            c.max.height as int,
        )
    }
}

/// What a fill measurement produces: the single child's measured size,
/// the child left in place.
pub open spec fn fill_ok(
    pre: Seq<Node>,
    post: Seq<Node>,
    id: int,
    c: Constraints,
    horizontal: bool,
    vertical: bool,
    r: Size,
) -> bool {
    let cs = kids(pre, id);
    if cs.len() == 0 {
        r == (Size { width: 0, height: 0 })
    } else {
        let ch = cs[0] as int;
        &&& !post[ch].layout_dirty
        &&& post[ch].area.origin == pre[ch].area.origin
        &&& r == post[ch].area.size
    }
}

/// What a frame measurement produces: the single child measured under
/// constraints shrunk by twice the width, moved in by the width, and the
/// child size grown by twice the width, unclamped.
pub open spec fn frame_ok(
    pre: Seq<Node>,
    post: Seq<Node>,
    id: int,
    c: Constraints,
    width: int,
    r: Size,
) -> bool {
    let cs = kids(pre, id);
    let both = spec_sat_add(width, width);
    if cs.len() == 0 {
        r == (Size {
            width: spec_sat_add(0, both) as i64,
            height: spec_sat_add(0, both) as i64,
        })
    } else {
        let ch = cs[0] as int;
        &&& !post[ch].layout_dirty
        &&& post[ch].area.origin.x == spec_sat_add(pre[ch].area.origin.x as int, width)
        &&& post[ch].area.origin.y == spec_sat_add(pre[ch].area.origin.y as int, width)
        &&& r.width == spec_sat_add(post[ch].area.size.width as int, both)
        &&& r.height == spec_sat_add(post[ch].area.size.height as int, both)
    }
}

impl Tree {
    /// Measures the single child under constraints shrunk by the padding,
    /// moves it to the top-start inset, and reports the padded size,
    /// clamped back into `c`.
    fn run_padding(
        &mut self,
        regs: &mut Vec<Registry>,
        id: usize,
        c: Constraints,
        start: i64,
        end: i64,
        top: i64,
        bottom: i64,
    ) -> (r: Size)
        requires
            shape_ok(old(self).nodes@),
            id < old(self).nodes@.len(),
            c.wf(),
            regs_ok(old(self).nodes@, old(regs)@),
            regs_wf(old(regs)@),
            pols_basic(old(self).nodes@),
        ensures
            final(self).nodes@.len() == old(self).nodes@.len(),
            same_links(old(self).nodes@, final(self).nodes@),
            shape_ok(final(self).nodes@),
            forall|j: int|
                0 <= j < old(self).nodes@.len() && !(id < j < sub_end(
                    old(self).nodes@,
                    id as int,
                )) ==> final(self).nodes@[j] == old(self).nodes@[j],
            forall|j: int|
                id < j < sub_end(old(self).nodes@, id as int) ==> measure_keeps(
                    old(self).nodes@[j],
                    #[trigger] final(self).nodes@[j],
                ),
            final(regs)@.len() == old(regs)@.len(),
            regs_wf(final(regs)@),
            padding_ok(
                old(self).nodes@,
                final(self).nodes@,
                id as int,
                c,
                start as int,
                end as int,
                top as int,
                bottom as int,
                r,
            ),
            kids(old(self).nodes@, id as int).len() == 0 ==> r == c.spec_apply(
                Size { width: 0, height: 0 },
            ),
            kids(old(self).nodes@, id as int).len() > 0 ==> exists|orc: Seq<Size>|
                #![trigger measured(
                    old(self).nodes@,
                    kids(old(self).nodes@, id as int)[0] as int,
                    c.spec_offset(
                        spec_sat_sub(0, spec_sat_add(start as int, end as int)),
                        spec_sat_sub(0, spec_sat_add(top as int, bottom as int)),
                    ),
                    orc,
                )]
                r == c.spec_apply(
                    Size {
                        width: spec_sat_add(
                            measured(
                                old(self).nodes@,
                                kids(old(self).nodes@, id as int)[0] as int,
                                c.spec_offset(
                                    spec_sat_sub(0, spec_sat_add(start as int, end as int)),
                                    spec_sat_sub(0, spec_sat_add(top as int, bottom as int)),
                                ),
                                orc,
                            ).width as int,
                            spec_sat_add(start as int, end as int),
                        ) as i64,
                        height: spec_sat_add(
                            measured(
                                old(self).nodes@,
                                kids(old(self).nodes@, id as int)[0] as int,
                                c.spec_offset(
                                    spec_sat_sub(0, spec_sat_add(start as int, end as int)),
                                    spec_sat_sub(0, spec_sat_add(top as int, bottom as int)),
                                ),
                                orc,
                            ).height as int,
                            spec_sat_add(top as int, bottom as int),
                        ) as i64,
                    },
                ),
        decreases regs@.len(), self.nodes@.len() - id, 2int,
    {
        let ghost pre = self.nodes@;
        proof {
            lemma_sub_end_bounds(pre, id as int);
            assert(node_spans_ok(pre, id as int));
        }
        let h = sat_add(start, end);
        let v = sat_add(top, bottom);
        if self.nodes[id].children.len() == 0 {
            return c.apply(Size { width: 0, height: 0 });
        }
        let ch = self.nodes[id].children[0];
        proof {
            assert(ch == kids(pre, id as int)[0]);
            lemma_sub_end_bounds(pre, ch as int);
            lemma_child_segment(pre, id as int, 0);
        }
        let inner = c.offset(sat_sub(0, h), sat_sub(0, v));
        proof {
            crate::constraints::lemma_offset_shifts(
                c,
                spec_sat_sub(0, h as int),
                spec_sat_sub(0, v as int),
            );
        }
        let sz = self.measure_node(regs, ch, inner);
        proof {
            let cc = c.spec_offset(
                spec_sat_sub(0, spec_sat_add(start as int, end as int)),
                spec_sat_sub(0, spec_sat_add(top as int, bottom as int)),
            );
            assert(inner == cc);
            let orc_c = choose|orc: Seq<Size>|
                #![trigger measured(pre, ch as int, inner, orc)]
                sz == measured(pre, ch as int, inner, orc);
            assert(sz == measured(pre, ch as int, cc, orc_c));
        }
        let ghost s2 = self.nodes@;
        self.shift_subtree(ch, start, top);
        proof {
            let u = self.nodes@;
            lemma_same_links_shape(pre, s2);
            assert(sub_end(s2, ch as int) == sub_end(pre, ch as int));
            assert(u[ch as int] == shifted_node(s2[ch as int], start as int, top as int));
            assert(s2[ch as int].area.origin == pre[ch as int].area.origin);
            assert forall|j: int| 0 <= j < pre.len() implies kids(pre, j) == #[trigger] kids(
                u,
                j,
            ) by {
                if ch as int <= j < sub_end(s2, ch as int) {
                    assert(u[j] == shifted_node(s2[j], start as int, top as int));
                } else {
                    assert(u[j] == s2[j]);
                }
            }
            assert(same_links(pre, u));
            lemma_same_links_shape(pre, u);
        }
        Size { width: c.apply_width(sat_add(sz.width, h)), height: c.apply_height(sat_add(sz.height, v)) }
    }

    /// Measures the single child under constraints tightened to the
    /// maximum on the filled axes, and reports the child's size.
    fn run_fill(
        &mut self,
        regs: &mut Vec<Registry>,
        id: usize,
        c: Constraints,
        horizontal: bool,
        vertical: bool,
    ) -> (r: Size)
        requires
            shape_ok(old(self).nodes@),
            id < old(self).nodes@.len(),
            c.wf(),
            regs_ok(old(self).nodes@, old(regs)@),
            regs_wf(old(regs)@),
            pols_basic(old(self).nodes@),
        ensures
            final(self).nodes@.len() == old(self).nodes@.len(),
            same_links(old(self).nodes@, final(self).nodes@),
            shape_ok(final(self).nodes@),
            forall|j: int|
                0 <= j < old(self).nodes@.len() && !(id < j < sub_end(
                    old(self).nodes@,
                    id as int,
                )) ==> final(self).nodes@[j] == old(self).nodes@[j],
            forall|j: int|
                id < j < sub_end(old(self).nodes@, id as int) ==> measure_keeps(
                    old(self).nodes@[j],
                    #[trigger] final(self).nodes@[j],
                ),
            final(regs)@.len() == old(regs)@.len(),
            regs_wf(final(regs)@),
            fill_ok(old(self).nodes@, final(self).nodes@, id as int, c, horizontal, vertical, r),
            kids(old(self).nodes@, id as int).len() == 0 ==> r == (Size { width: 0, height: 0 }),
            kids(old(self).nodes@, id as int).len() > 0 ==> exists|orc: Seq<Size>|
                #![trigger measured(
                    old(self).nodes@,
                    kids(old(self).nodes@, id as int)[0] as int,
                    spec_fill_constraints(c, horizontal, vertical),
                    orc,
                )]
                r == measured(
                    old(self).nodes@,
                    kids(old(self).nodes@, id as int)[0] as int,
                    spec_fill_constraints(c, horizontal, vertical),
                    orc,
                ),
        decreases regs@.len(), self.nodes@.len() - id, 2int,
    {
        let ghost pre = self.nodes@;
        proof {
            lemma_sub_end_bounds(pre, id as int);
            assert(node_spans_ok(pre, id as int));
        }
        if self.nodes[id].children.len() == 0 {
            return Size { width: 0, height: 0 };
        }
        let ch = self.nodes[id].children[0];
        proof {
            assert(ch == kids(pre, id as int)[0]);
            lemma_sub_end_bounds(pre, ch as int);
            lemma_child_segment(pre, id as int, 0);
        }
        let minw = if c.has_bounded_width() && horizontal {
            c.max.width
        } else {
            c.min.width
        };
        let minh = if c.has_bounded_height() && vertical {
            c.max.height
        } else {
            c.min.height
        };
        let fc = Constraints { min: Size { width: minw, height: minh }, max: c.max };
        let sz = self.measure_node(regs, ch, fc);
        proof {
            assert(fc == spec_fill_constraints(c, horizontal, vertical));
            let orc_c = choose|orc: Seq<Size>|
                #![trigger measured(pre, ch as int, fc, orc)]
                sz == measured(pre, ch as int, fc, orc);
            assert(sz == measured(
                pre,
                ch as int,
                spec_fill_constraints(c, horizontal, vertical),
                orc_c,
            ));
        }
        sz
    }

    /// Measures the single child under constraints shrunk by twice the
    /// frame width, moves it in by the width, and reports the child's size
    /// grown by twice the width, unclamped.
    fn run_frame(
        &mut self,
        regs: &mut Vec<Registry>,
        id: usize,
        c: Constraints,
        width: i64,
    ) -> (r: Size)
        requires
            shape_ok(old(self).nodes@),
            id < old(self).nodes@.len(),
            c.wf(),
            regs_ok(old(self).nodes@, old(regs)@),
            regs_wf(old(regs)@),
            pols_basic(old(self).nodes@),
        ensures
            final(self).nodes@.len() == old(self).nodes@.len(),
            same_links(old(self).nodes@, final(self).nodes@),
            shape_ok(final(self).nodes@),
            forall|j: int|
                0 <= j < old(self).nodes@.len() && !(id < j < sub_end(
                    old(self).nodes@,
                    id as int,
                )) ==> final(self).nodes@[j] == old(self).nodes@[j],
            forall|j: int|
                id < j < sub_end(old(self).nodes@, id as int) ==> measure_keeps(
                    old(self).nodes@[j],
                    #[trigger] final(self).nodes@[j],
                ),
            final(regs)@.len() == old(regs)@.len(),
            regs_wf(final(regs)@),
            frame_ok(old(self).nodes@, final(self).nodes@, id as int, c, width as int, r),
            kids(old(self).nodes@, id as int).len() == 0 ==> r == (Size {
                width: spec_sat_add(0, spec_sat_add(width as int, width as int)) as i64,
                height: spec_sat_add(0, spec_sat_add(width as int, width as int)) as i64,
            }),
            kids(old(self).nodes@, id as int).len() > 0 ==> exists|orc: Seq<Size>|
                #![trigger measured(
                    old(self).nodes@,
                    kids(old(self).nodes@, id as int)[0] as int,
                    c.spec_offset(
                        spec_sat_sub(0, spec_sat_add(width as int, width as int)),
                        spec_sat_sub(0, spec_sat_add(width as int, width as int)),
                    ),
                    orc,
                )]
                r == (Size {
                    width: spec_sat_add(
                        measured(
                            old(self).nodes@,
                            kids(old(self).nodes@, id as int)[0] as int,
                            c.spec_offset(
                                spec_sat_sub(0, spec_sat_add(width as int, width as int)),
                                spec_sat_sub(0, spec_sat_add(width as int, width as int)),
                            ),
                            orc,
                        ).width as int,
                        spec_sat_add(width as int, width as int),
                    ) as i64,
                    height: spec_sat_add(
                        measured(
                            old(self).nodes@,
                            kids(old(self).nodes@, id as int)[0] as int,
                            c.spec_offset(
                                spec_sat_sub(0, spec_sat_add(width as int, width as int)),
                                spec_sat_sub(0, spec_sat_add(width as int, width as int)),
                            ),
                            orc,
                        ).height as int,
                        spec_sat_add(width as int, width as int),
                    ) as i64,
                }),
        decreases regs@.len(), self.nodes@.len() - id, 2int,
    {
        let ghost pre = self.nodes@;
        proof {
            lemma_sub_end_bounds(pre, id as int);
            assert(node_spans_ok(pre, id as int));
        }
        let both = sat_add(width, width);
        if self.nodes[id].children.len() == 0 {
            return Size { width: sat_add(0, both), height: sat_add(0, both) };
        }
        let ch = self.nodes[id].children[0];
        proof {
            assert(ch == kids(pre, id as int)[0]);
            lemma_sub_end_bounds(pre, ch as int);
            lemma_child_segment(pre, id as int, 0);
        }
        let inner = c.offset(sat_sub(0, both), sat_sub(0, both));
        proof {
            crate::constraints::lemma_offset_shifts(
                c,
                spec_sat_sub(0, both as int),
                spec_sat_sub(0, both as int),
            );
        }
        let sz = self.measure_node(regs, ch, inner);
        proof {
            let cc = c.spec_offset(
                spec_sat_sub(0, spec_sat_add(width as int, width as int)),
                spec_sat_sub(0, spec_sat_add(width as int, width as int)),
            );
            assert(inner == cc);
            let orc_c = choose|orc: Seq<Size>|
                #![trigger measured(pre, ch as int, inner, orc)]
                sz == measured(pre, ch as int, inner, orc);
            assert(sz == measured(pre, ch as int, cc, orc_c));
        }
        let ghost s2 = self.nodes@;
        self.shift_subtree(ch, width, width);
        proof {
            let u = self.nodes@;
            lemma_same_links_shape(pre, s2);
            assert(sub_end(s2, ch as int) == sub_end(pre, ch as int));
            assert(u[ch as int] == shifted_node(s2[ch as int], width as int, width as int));
            assert(s2[ch as int].area.origin == pre[ch as int].area.origin);
            assert forall|j: int| 0 <= j < pre.len() implies kids(pre, j) == #[trigger] kids(
                u,
                j,
            ) by {
                if ch as int <= j < sub_end(s2, ch as int) {
                    assert(u[j] == shifted_node(s2[j], width as int, width as int));
                } else {
                    assert(u[j] == s2[j]);
                }
            }
            assert(same_links(pre, u));
            lemma_same_links_shape(pre, u);
        }
        Size { width: sat_add(sz.width, both), height: sat_add(sz.height, both) }
    }
}

/// Finds the slot holding `key`.
fn find_slot(reg: &Registry, key: usize) -> (res: Option<usize>)
    ensures
        match res {
            Some(s) => s < reg.entries@.len() && reg.entries@[s as int].key == key,
            None => forall|s: int|
                0 <= s < reg.entries@.len() ==> (#[trigger] reg.entries@[s]).key != key,
        },
{
    let n = reg.entries.len();
    let mut s: usize = 0;
    while s < n
        invariant
            s <= n,
            n == reg.entries@.len(),
            forall|ss: int| 0 <= ss < s ==> (#[trigger] reg.entries@[ss]).key != key,
        decreases n - s,
    {
        if reg.entries[s].key == key {
            return Some(s);
        }
        s += 1;
    }
    None
}

/// The placement effect on one arena: the subtree rooted at `id` is
/// shifted by `(dx, dy)`, saturating, and nothing else moves; an `id`
/// outside the arena moves nothing.
pub open spec fn placed_into(a: Seq<Node>, b: Seq<Node>, id: int, dx: int, dy: int) -> bool {
    if 0 <= id < a.len() {
        &&& b.len() == a.len()
        &&& forall|j: int|
            id <= j < sub_end(a, id) ==> b[j] == shifted_node(#[trigger] a[j], dx, dy)
        &&& forall|j: int|
            0 <= j < a.len() && !(id <= j < sub_end(a, id)) ==> b[j] == #[trigger] a[j]
    } else {
        b == a
    }
}

/// Routes an absolute placement into a slot's nested instance: the
/// identified node's origin becomes `(x, y)` and its descendants move by
/// the same delta, exactly as `Tree::place` does. Slots other than the
/// addressed one are untouched. A slot requested before being created, or
/// a node the instance does not hold, is a caller error: nothing moves
/// and the call reports it by returning false.
pub fn slot_place(reg: &mut Registry, key: usize, id: usize, x: i64, y: i64) -> (ok: bool)
    requires
        registry_wf(*old(reg)),
    ensures
        registry_wf(*final(reg)),
        final(reg).entries@.len() == old(reg).entries@.len(),
        forall|s: int|
            0 <= s < old(reg).entries@.len() ==> (#[trigger] final(reg).entries@[s]).key == old(
                reg,
            ).entries@[s].key && same_links(
                old(reg).entries@[s].instance.tree.nodes@,
                final(reg).entries@[s].instance.tree.nodes@,
            ) && final(reg).entries@[s].instance.constraints == old(
                reg,
            ).entries@[s].instance.constraints,
        forall|s: int|
            0 <= s < old(reg).entries@.len() && old(reg).entries@[s].key != key ==> (
            #[trigger] final(reg).entries@[s]) == old(reg).entries@[s],
        (forall|s: int|
            0 <= s < old(reg).entries@.len() ==> (#[trigger] old(reg).entries@[s]).key != key)
            ==> *final(reg) == *old(reg) && !ok,
        forall|s: int|
            0 <= s < old(reg).entries@.len() && (#[trigger] old(reg).entries@[s]).key == key
                ==> placed_into(
                old(reg).entries@[s].instance.tree.nodes@,
                final(reg).entries@[s].instance.tree.nodes@,
                id as int,
                spec_sat_sub(
                    x as int,
                    old(reg).entries@[s].instance.tree.nodes@[id as int].area.origin.x as int,
                ),
                spec_sat_sub(
                    y as int,
                    old(reg).entries@[s].instance.tree.nodes@[id as int].area.origin.y as int,
                ),
            ) && (ok <==> (id as int) < old(reg).entries@[s].instance.tree.nodes@.len()),
{
    let mut ok = false;
    let found = find_slot(reg, key);
    if let Some(s) = found {
        let ghost t0 = reg.entries@[s as int].instance.tree.nodes@;
        if id < reg.entries[s].instance.tree.nodes.len() {
            ok = true;
            reg.entries[s].instance.tree.place(id, x, y);
            proof {
                let t1 = reg.entries@[s as int].instance.tree.nodes@;
                assert(same_links(t0, t1)) by {
                    assert forall|j: int| 0 <= j < t0.len() implies kids(t0, j) == #[trigger] kids(
                        t1,
                        j,
                    ) by {
                        if id <= j < sub_end(t0, id as int) {
                        }
                    }
                }
                lemma_same_links_shape(t0, t1);
                assert forall|ss: int|
                    0 <= ss < reg.entries@.len() implies instance_wf(
                    (#[trigger] reg.entries@[ss]).instance,
                ) by {
                    if ss != s {
                        assert(reg.entries@[ss] == old(reg).entries@[ss]);
                    } else {
                        assert(tree_basic(t1)) by {
                            assert forall|j: int|
                                0 <= j < t1.len() implies !((#[trigger] t1[j]).phase
                                    matches NodePhase::MeasurementCompose { .. }) by {
                                assert(t1[j].phase == t0[j].phase);
                            }
                        }
                    }
                }
            }
        }
    }
    ok
}

/// Routes a relative placement into a slot's nested instance: the
/// identified node and its descendants move by `(x, y)`, exactly as
/// `Tree::place_relative` does. Slots other than the addressed one are
/// untouched. A slot requested before being created, or a node the
/// instance does not hold, is a caller error: nothing moves and the call
/// reports it by returning false.
pub fn slot_place_relative(reg: &mut Registry, key: usize, id: usize, x: i64, y: i64) -> (ok: bool)
    requires
        registry_wf(*old(reg)),
    ensures
        registry_wf(*final(reg)),
        final(reg).entries@.len() == old(reg).entries@.len(),
        forall|s: int|
            0 <= s < old(reg).entries@.len() ==> (#[trigger] final(reg).entries@[s]).key == old(reg).entries@[s].key && same_links(
                old(reg).entries@[s].instance.tree.nodes@,
                final(reg).entries@[s].instance.tree.nodes@,
            ) && final(reg).entries@[s].instance.constraints == old(reg).entries@[s].instance.constraints,
        forall|s: int|
            0 <= s < old(reg).entries@.len() && old(reg).entries@[s].key != key ==> (
            #[trigger] final(reg).entries@[s]) == old(reg).entries@[s],
        (forall|s: int|
            0 <= s < old(reg).entries@.len() ==> (#[trigger] old(reg).entries@[s]).key != key)
            ==> *final(reg) == *old(reg) && !ok,
        forall|s: int|
            0 <= s < old(reg).entries@.len() && (#[trigger] old(reg).entries@[s]).key == key
                ==> placed_into(
                old(reg).entries@[s].instance.tree.nodes@,
                final(reg).entries@[s].instance.tree.nodes@,
                id as int,
                x as int,
                y as int,
            ) && (ok <==> (id as int) < old(reg).entries@[s].instance.tree.nodes@.len()),
{
    let mut ok = false;
    let found = find_slot(reg, key);
    if let Some(s) = found {
        let ghost t0 = reg.entries@[s as int].instance.tree.nodes@;
        if id < reg.entries[s].instance.tree.nodes.len() {
            ok = true;
            reg.entries[s].instance.tree.shift_subtree(id, x, y);
            proof {
                let t1 = reg.entries@[s as int].instance.tree.nodes@;
                assert(same_links(t0, t1));
                lemma_same_links_shape(t0, t1);
                assert forall|ss: int|
                    0 <= ss < reg.entries@.len() implies instance_wf(
                    (#[trigger] reg.entries@[ss]).instance,
                ) by {
                    if ss != s {
                        assert(reg.entries@[ss] == old(reg).entries@[ss]);
                    } else {
                        assert(tree_basic(t1)) by {
                            assert forall|j: int|
                                0 <= j < t1.len() implies !((#[trigger] t1[j]).phase
                                    matches NodePhase::MeasurementCompose { .. }) by {
                                assert(t1[j].phase == t0[j].phase);
                            }
                        }
                    }
                }
            }
        }
    }
    ok
}

/// Routes a measurement into a slot's nested instance: the identified
/// node is measured under `c`, exactly as `Tree::measure_node` does, and
/// its size handed back. Slots other than the addressed one are
/// untouched; a missing key or node measures nothing.
pub fn slot_measure(reg: &mut Registry, key: usize, id: usize, c: Constraints) -> (r: Option<Size>)
    requires
        registry_wf(*old(reg)),
        c.wf(),
    ensures
        registry_wf(*final(reg)),
        final(reg).entries@.len() == old(reg).entries@.len(),
        forall|s: int|
            0 <= s < old(reg).entries@.len() ==> (#[trigger] final(reg).entries@[s]).key == old(
                reg,
            ).entries@[s].key && same_links(
                old(reg).entries@[s].instance.tree.nodes@,
                final(reg).entries@[s].instance.tree.nodes@,
            ) && final(reg).entries@[s].instance.constraints == old(
                reg,
            ).entries@[s].instance.constraints,
        forall|s: int|
            0 <= s < old(reg).entries@.len() && old(reg).entries@[s].key != key ==> (
            #[trigger] final(reg).entries@[s]) == old(reg).entries@[s],
        (forall|s: int|
            0 <= s < old(reg).entries@.len() ==> (#[trigger] old(reg).entries@[s]).key != key)
            ==> *final(reg) == *old(reg) && r is None,
        forall|s: int|
            0 <= s < old(reg).entries@.len() && (#[trigger] old(reg).entries@[s]).key == key
                ==> if (id as int) < old(reg).entries@[s].instance.tree.nodes@.len() {
                &&& r is Some
                &&& !final(reg).entries@[s].instance.tree.nodes@[id as int].layout_dirty
                &&& r->0 == final(reg).entries@[s].instance.tree.nodes@[id as int].area.size
                &&& exists|orc: Seq<Size>|
                    #![trigger measured(old(reg).entries@[s].instance.tree.nodes@, id as int, c, orc)]
                    r->0 == measured(
                        old(reg).entries@[s].instance.tree.nodes@,
                        id as int,
                        c,
                        orc,
                    )
            } else {
                r is None && (#[trigger] final(reg).entries@[s]) == old(reg).entries@[s]
            },
{
    let found = find_slot(reg, key);
    if let Some(fs) = found {
        let ghost t0 = reg.entries@[fs as int].instance.tree.nodes@;
        if id < reg.entries[fs].instance.tree.nodes.len() {
            let mut no_regs: Vec<Registry> = Vec::new();
            proof {
                assert(instance_wf(old(reg).entries@[fs as int].instance));
                assert(regs_ok(t0, no_regs@)) by {
                    assert forall|j: int|
                        0 <= j < t0.len() implies reg_in_range(
                        (#[trigger] t0[j]).phase,
                        0,
                        no_regs@.len() as int,
                    ) by {
                        assert(!(t0[j].phase matches NodePhase::MeasurementCompose { .. }));
                    }
                }
                assert(pols_basic(t0)) by {
                    assert forall|j: int|
                        0 <= j < t0.len() implies crate::compose::node_pol_basic(#[trigger] t0[j])
                    by {
                        assert(!(t0[j].phase matches NodePhase::MeasurementCompose { .. }));
                    }
                }
            }
            let sz = reg.entries[fs].instance.tree.measure_node(&mut no_regs, id, c);
            proof {
                let t1 = reg.entries@[fs as int].instance.tree.nodes@;
                lemma_same_links_shape(t0, t1);
                assert(tree_basic(t1)) by {
                    assert forall|j: int|
                        0 <= j < t1.len() implies !((#[trigger] t1[j]).phase
                            matches NodePhase::MeasurementCompose { .. }) by {
                        assert(t1[j].phase == t0[j].phase);
                    }
                }
                assert forall|ss: int|
                    0 <= ss < reg.entries@.len() implies instance_wf(
                    (#[trigger] reg.entries@[ss]).instance,
                ) by {
                    if ss != fs {
                        assert(reg.entries@[ss] == old(reg).entries@[ss]);
                    } else {
                        assert(sub_end(t1, 0) == sub_end(t0, 0));
                    }
                }
                assert forall|s2: int|
                    0 <= s2 < old(reg).entries@.len() && old(reg).entries@[s2].key == key implies
                    s2 == fs by {
                    assert(registry_wf(*old(reg)));
                }
            }
            Some(sz)
        } else {
            None
        }
    } else {
        None
    }
}

/// A re-composition pass ran over the instance: each top-level child,
/// paired with its declared template, stores the refreshed behavior —
/// replaced where the handle changed, untouched where it matched.
pub open spec fn instance_refreshed(a: Instance, b: Instance, ts: Seq<Template>) -> bool {
    let t = a.tree.nodes@;
    forall|k: int|
        0 <= k < kids(t, 0).len() && k < ts.len() ==> crate::compose::refreshed_from(
            t,
            b.tree.nodes@,
            kids(t, 0)[k] as int,
            #[trigger] ts[k],
        )
}

/// A nested instance freshly seeded from declared content: a virtual
/// anchor whose children are built from the templates, one for one.
pub open spec fn instance_built(inst: Instance, ts: Seq<Template>) -> bool {
    let t = inst.tree.nodes@;
    &&& t.len() > 0
    &&& t[0].phase matches NodePhase::Virtual
    &&& kids(t, 0).len() == ts.len()
    &&& forall|k: int|
        0 <= k < ts.len() ==> crate::compose::built_from(t, kids(t, 0)[k] as int, #[trigger] ts[k])
}

/// The arena with the subtree range `[lo, hi)` forced dirty, as
/// composition invalidates a child before measuring it.
pub open spec fn force_dirty(t: Seq<Node>, lo: int, hi: int) -> Seq<Node> {
    Seq::new(
        t.len(),
        |j: int|
            if lo <= j < hi {
                crate::tree::dirtied_node(t[j])
            } else {
                t[j]
            },
    )
}

/// The size is a measurement of the node at `ck` under `mc`, taken after
/// its subtree was invalidated: no cached size can leak through.
pub open spec fn result_measured(t: Seq<Node>, ck: int, sz: Size, mc: Constraints) -> bool {
    exists|orc: Seq<Size>|
        #![trigger measured(force_dirty(t, ck, sub_end(t, ck)), ck, mc, orc)]
        sz == measured(force_dirty(t, ck, sub_end(t, ck)), ck, mc, orc)
}

/// Every returned size is a measurement of its child under `mc`, taken
/// after the child's subtree was invalidated, so the results reflect the
/// constraints of this composition, not an earlier one.
pub open spec fn slot_results_measured(inst: Instance, out: Seq<(usize, Size)>, mc: Constraints) -> bool {
    let t = inst.tree.nodes@;
    forall|k: int|
        0 <= k < out.len() ==> result_measured(t, kids(t, 0)[k] as int, (#[trigger] out[k]).1, mc)
}

pub open spec fn slot_results_ok(inst: Instance, out: Seq<(usize, Size)>) -> bool {
    let t = inst.tree.nodes@;
    &&& out.len() == kids(t, 0).len()
    &&& forall|k: int|
        0 <= k < out.len() ==> (#[trigger] out[k]).0 == kids(t, 0)[k] && out[k].1 == t[kids(
            t,
            0,
        )[k] as int].area.size && !t[kids(t, 0)[k] as int].layout_dirty
}

/// Composes slot content: looks the key up, creating a fresh nested
/// instance on the first request and re-declaring the content on every
/// later one, updates the slot's constraints, then invalidates and
/// measures every top-level child of the instance under `mc`, returning
/// each child's identity and size, in order.
///
/// A key that was present keeps its slot, its position and its node
/// identities: nothing is rebuilt for a re-request.
#[verifier::loop_isolation(false)]
#[verifier::rlimit(80)]
pub fn compose_slot(
    reg: &mut Registry,
    key: usize,
    content: &Vec<Template>,
    constraints: Constraints,
    mc: Constraints,
) -> (out: Vec<(usize, Size)>)
    requires
        registry_wf(*old(reg)),
        templates_basic(content@),
        mc.wf(),
    ensures
        registry_wf(*final(reg)),
        final(reg).entries@.len() >= old(reg).entries@.len(),
        final(reg).entries@.len() <= old(reg).entries@.len() + 1,
        forall|s: int|
            0 <= s < old(reg).entries@.len() ==> (#[trigger] final(reg).entries@[s]).key == old(reg).entries@[s].key && same_links(
                old(reg).entries@[s].instance.tree.nodes@,
                final(reg).entries@[s].instance.tree.nodes@,
            ),
        (exists|s: int|
            0 <= s < old(reg).entries@.len() && (#[trigger] old(reg).entries@[s]).key == key)
            ==> final(reg).entries@.len() == old(reg).entries@.len(),
        final(reg).entries@.len() > old(reg).entries@.len() ==> final(reg).entries@[old(reg).entries@.len() as int].key == key,
        forall|s: int|
            0 <= s < old(reg).entries@.len() && old(reg).entries@[s].key != key ==> (
            #[trigger] final(reg).entries@[s]) == old(reg).entries@[s],
        final(reg).entries@.len() > old(reg).entries@.len() ==> instance_built(
            final(reg).entries@[old(reg).entries@.len() as int].instance,
            content@,
        ),
        forall|s: int|
            0 <= s < old(reg).entries@.len() && (#[trigger] old(reg).entries@[s]).key == key
                ==> instance_refreshed(
                old(reg).entries@[s].instance,
                final(reg).entries@[s].instance,
                content@,
            ),
        exists|s: int|
            0 <= s < final(reg).entries@.len() && (#[trigger] final(reg).entries@[s]).key == key
                && final(reg).entries@[s].instance.constraints == constraints && slot_results_ok(
                final(reg).entries@[s].instance,
                out@,
            ) && slot_results_measured(final(reg).entries@[s].instance, out@, mc),
    decreases 1int, 1int, 0int,
{
    let found = find_slot(reg, key);
    let fidx: usize;
    if let Some(fs) = found {
        fidx = fs;
        reg.entries[fidx].instance.constraints = constraints;
        let ghost g = reg.entries@[fidx as int].instance.tree.nodes@;
        proof {
            assert(g == old(reg).entries@[fidx as int].instance.tree.nodes@);
        }
        reg.entries[fidx].instance.tree.update_children(0, content, Ghost(g));
        proof {
            let t1 = reg.entries@[fidx as int].instance.tree.nodes@;
            assert(same_links(g, t1));
            lemma_same_links_shape(g, t1);
            assert forall|kk: int|
                0 <= kk < kids(g, 0).len() && kk < content@.len() implies crate::compose::refreshed_from(
                g,
                t1,
                kids(g, 0)[kk] as int,
                #[trigger] content@[kk],
            ) by {
                crate::compose::lemma_updated_implies_refreshed(
                    g,
                    t1,
                    kids(g, 0)[kk] as int,
                    content@[kk],
                );
            }
            assert(tree_basic(t1)) by {
                assert forall|j: int|
                    0 <= j < t1.len() implies !((#[trigger] t1[j]).phase
                        matches NodePhase::MeasurementCompose { .. }) by {
                    if !(0 <= j < g.len() && !(0 <= j < sub_end(g, 0))) {
                        assert(crate::compose::update_keeps(g[j], t1[j]));
                        assert(crate::compose::phase_like(t1[j].phase, g[j].phase));
                    }
                }
            }
        }
    } else {
        let mut tree = Tree { nodes: Vec::new() };
        tree.nodes.push(Node::new(NodePhase::Virtual));
        proof {
            let t = tree.nodes@;
            assert(kids(t, 0).len() == 0);
            assert(links_ok(t));
            assert forall|i: int| 0 <= i < t.len() implies node_spans_ok(t, i) by {}
        }
        let mut no_regs: Vec<Registry> = Vec::new();
        tree.build_children(&mut no_regs, 0, content);
        proof {
            let t = tree.nodes@;
            assert(tree_basic(t)) by {
                assert forall|j: int|
                    0 <= j < t.len() implies !((#[trigger] t[j]).phase
                        matches NodePhase::MeasurementCompose { .. }) by {
                    if j == 0 {
                    }
                }
            }
            assert(tree.wf());
        }
        fidx = reg.entries.len();
        reg.entries.push(Slot { key, instance: Instance { tree, constraints } });
        proof {
            assert forall|s1: int, s2: int|
                0 <= s1 < s2 < reg.entries@.len() implies (#[trigger] reg.entries@[s1]).key != (
                #[trigger] reg.entries@[s2]).key by {
                if s2 == fidx {
                    assert(reg.entries@[s1].key == old(reg).entries@[s1].key);
                }
            }
        }
    }
    let ghost reg1 = *reg;
    let ghost t1 = reg.entries@[fidx as int].instance.tree.nodes@;
    proof {
        assert(instance_wf(reg1.entries@[fidx as int].instance));
        lemma_sub_end_bounds(t1, 0);
        assert(node_spans_ok(t1, 0));
    }
    let m = reg.entries[fidx].instance.tree.nodes[0].children.len();
    let mut out: Vec<(usize, Size)> = Vec::new();
    let ghost mut orcs: Seq<Seq<Size>> = Seq::empty();
    let mut k: usize = 0;
    while k < m
        invariant
            k <= m,
            fidx < reg.entries@.len(),
            m == kids(t1, 0).len(),
            reg.entries@.len() == reg1.entries@.len(),
            forall|s: int|
                0 <= s < reg.entries@.len() && s != fidx ==> reg.entries@[s] == #[trigger] reg1.entries@[s],
            reg.entries@[fidx as int].key == reg1.entries@[fidx as int].key,
            reg.entries@[fidx as int].instance.constraints == reg1.entries@[fidx as int].instance.constraints,
            reg.entries@[fidx as int].instance.tree.nodes@.len() == t1.len(),
            same_links(t1, reg.entries@[fidx as int].instance.tree.nodes@),
            shape_ok(reg.entries@[fidx as int].instance.tree.nodes@),
            tree_basic(reg.entries@[fidx as int].instance.tree.nodes@),
            forall|j: int|
                0 <= j < t1.len() ==> (#[trigger] reg.entries@[fidx as int].instance.tree.nodes@[
                j]).phase == t1[j].phase,
            frontier(t1, 0, k as int) <= sub_end(t1, 0),
            forall|j: int|
                0 <= j < t1.len() && !(1 <= j < frontier(t1, 0, k as int)) ==> reg.entries@[
                    fidx as int
                ].instance.tree.nodes@[j] == t1[j],
            out@.len() == k,
            forall|kk: int|
                0 <= kk < k ==> (#[trigger] out@[kk]).0 == kids(t1, 0)[kk] && out@[kk].1
                    == reg.entries@[fidx as int].instance.tree.nodes@[kids(t1, 0)[kk] as int].area.size
                    && !reg.entries@[fidx as int].instance.tree.nodes@[kids(
                    t1,
                    0,
                )[kk] as int].layout_dirty,
            orcs.len() == k,
            forall|kk: int|
                0 <= kk < k ==> (#[trigger] out@[kk]).1 == measured(
                    force_dirty(
                        reg.entries@[fidx as int].instance.tree.nodes@,
                        kids(t1, 0)[kk] as int,
                        sub_end(t1, kids(t1, 0)[kk] as int),
                    ),
                    kids(t1, 0)[kk] as int,
                    mc,
                    orcs[kk],
                ),
        decreases m - k,
    {
        let ghost s_cur = reg.entries@[fidx as int].instance.tree.nodes@;
        proof {
            lemma_same_links_shape(t1, s_cur);
        }
        let cid = reg.entries[fidx].instance.tree.nodes[0].children[k];
        proof {
            assert(cid == kids(t1, 0)[k as int]);
            lemma_sub_end_bounds(t1, cid as int);
            lemma_child_segment(t1, 0, k as int);
        }
        reg.entries[fidx].instance.tree.mark_dirty(cid);
        let ghost s_d = reg.entries@[fidx as int].instance.tree.nodes@;
        let mut no_regs: Vec<Registry> = Vec::new();
        proof {
            assert forall|j: int| 0 <= j < t1.len() implies kids(t1, j) == #[trigger] kids(
                s_d,
                j,
            ) by {
                assert(kids(s_cur, j) == kids(t1, j));
                if cid as int <= j < sub_end(s_cur, cid as int) {
                    assert(s_d[j] == crate::tree::dirtied_node(s_cur[j]));
                } else {
                    assert(s_d[j] == s_cur[j]);
                }
            }
            assert(same_links(t1, s_d));
            lemma_same_links_shape(t1, s_d);
            assert(regs_ok(s_d, no_regs@)) by {
                assert forall|j: int|
                    0 <= j < s_d.len() implies reg_in_range(
                    (#[trigger] s_d[j]).phase,
                    0,
                    no_regs@.len() as int,
                ) by {
                    if 1 <= j < frontier(t1, 0, k as int) {
                    }
                    assert(!(s_d[j].phase matches NodePhase::MeasurementCompose { .. }));
                }
            }
            assert(pols_basic(s_d)) by {
                assert forall|j: int|
                    0 <= j < s_d.len() implies crate::compose::node_pol_basic(#[trigger] s_d[j])
                by {
                    assert(!(s_d[j].phase matches NodePhase::MeasurementCompose { .. }));
                }
            }
        }
        let sz = reg.entries[fidx].instance.tree.measure_node(&mut no_regs, cid, mc);
        out.push((cid, sz));
        proof {
            let s_m = reg.entries@[fidx as int].instance.tree.nodes@;
            assert(sub_end(s_cur, cid as int) == sub_end(t1, cid as int));
            assert(sub_end(s_d, cid as int) == sub_end(t1, cid as int)) by {
                lemma_same_links_shape(t1, s_d);
            }
            if k + 1 < m {
                assert(kids(t1, 0)[k + 1] == sub_end(t1, kids(t1, 0)[k as int] as int));
            } else {
                assert(sub_end(t1, 0) == sub_end(t1, kids(t1, 0)[m - 1] as int));
            }
            assert(tree_basic(s_m)) by {
                assert forall|j: int|
                    0 <= j < s_m.len() implies !((#[trigger] s_m[j]).phase
                        matches NodePhase::MeasurementCompose { .. }) by {
                    assert(s_m[j].phase == s_d[j].phase);
                    assert(s_d[j].phase == s_cur[j].phase || s_d[j].phase == s_cur[j].phase);
                }
            }
            assert forall|j: int|
                0 <= j < t1.len() implies (#[trigger] s_m[j]).phase == t1[j].phase by {
                assert(s_m[j].phase == s_d[j].phase);
                assert(s_d[j].phase == s_cur[j].phase);
                assert(s_cur[j].phase == t1[j].phase);
            }
            assert forall|kk: int|
                0 <= kk < k + 1 implies (#[trigger] out@[kk]).0 == kids(t1, 0)[kk] && out@[kk].1
                == s_m[kids(t1, 0)[kk] as int].area.size && !s_m[kids(
                t1,
                0,
            )[kk] as int].layout_dirty by {
                if kk < k {
                    let ck = kids(t1, 0)[kk] as int;
                    assert(ck == frontier(t1, 0, kk));
                    crate::tree::lemma_frontier_step(t1, 0, kk);
                    crate::tree::lemma_frontier_mono(t1, 0, kk + 1, k as int);
                    assert(ck < cid as int);
                    assert(out@[kk].0 == kids(t1, 0)[kk]);
                    assert(out@[kk].1 == s_cur[ck].area.size);
                    assert(!s_cur[ck].layout_dirty);
                    assert(s_d[ck] == s_cur[ck]);
                    assert(s_m[ck] == s_d[ck]);
                } else {
                    assert(out@[kk].0 == cid);
                    assert(out@[kk].1 == sz);
                    assert(sz == s_m[cid as int].area.size);
                    assert(!s_m[cid as int].layout_dirty);
                }
            }
            assert(s_m == reg.entries@[fidx as int].instance.tree.nodes@);
            assert forall|kk: int|
                0 <= kk < k + 1 implies (#[trigger] out@[kk]).0 == kids(t1, 0)[kk] && out@[kk].1
                == reg.entries@[fidx as int].instance.tree.nodes@[kids(t1, 0)[kk] as int].area.size
                && !reg.entries@[fidx as int].instance.tree.nodes@[kids(
                t1,
                0,
            )[kk] as int].layout_dirty by {
                assert(out@[kk].1 == s_m[kids(t1, 0)[kk] as int].area.size);
                assert(!s_m[kids(t1, 0)[kk] as int].layout_dirty);
            }
            let e_k = sub_end(t1, cid as int);
            let orc_m = choose|orc: Seq<Size>|
                #![trigger measured(s_d, cid as int, mc, orc)]
                sz == measured(s_d, cid as int, mc, orc);
            let fd_m = force_dirty(s_m, cid as int, e_k);
            assert(same_links(s_m, fd_m)) by {
                assert forall|j: int| 0 <= j < s_m.len() implies kids(s_m, j) == #[trigger] kids(
                    fd_m,
                    j,
                ) by {}
            }
            lemma_same_links_shape(t1, s_m);
            lemma_same_links_shape(s_m, fd_m);
            assert forall|j: int|
                cid as int <= j < sub_end(s_d, cid as int) implies crate::measure::measure_view(
                s_d[j],
                #[trigger] fd_m[j],
            ) by {
                assert(s_d[j] == crate::tree::dirtied_node(s_cur[j]));
                assert(fd_m[j] == crate::tree::dirtied_node(s_m[j]));
                assert(s_m[j].phase == s_d[j].phase);
                assert(s_m[j].children@ == s_d[j].children@) by {
                    assert(kids(s_m, j) == kids(s_d, j));
                }
            }
            lemma_measured_view(s_d, fd_m, cid as int, mc, orc_m);
            assert(sz == measured(fd_m, cid as int, mc, orc_m));
            assert forall|kk: int|
                0 <= kk < k + 1 implies (#[trigger] out@[kk]).1 == measured(
                force_dirty(s_m, kids(t1, 0)[kk] as int, sub_end(t1, kids(t1, 0)[kk] as int)),
                kids(t1, 0)[kk] as int,
                mc,
                orcs.push(orc_m)[kk],
            ) by {
                let ck = kids(t1, 0)[kk] as int;
                let e_kk = sub_end(t1, ck);
                if kk < k {
                    assert(ck == frontier(t1, 0, kk));
                    crate::tree::lemma_frontier_step(t1, 0, kk);
                    crate::tree::lemma_frontier_mono(t1, 0, kk + 1, k as int);
                    assert(e_kk == frontier(t1, 0, kk + 1)) by {
                        if kk + 1 < m {
                            assert(kids(t1, 0)[kk + 1] == sub_end(t1, kids(t1, 0)[kk] as int));
                        } else {
                            assert(sub_end(t1, 0) == sub_end(t1, kids(t1, 0)[m - 1] as int));
                        }
                    }
                    let fd_old = force_dirty(s_cur, ck, e_kk);
                    let fd_new = force_dirty(s_m, ck, e_kk);
                    assert(out@[kk].1 == measured(fd_old, ck, mc, orcs[kk]));
                    assert(same_links(s_cur, fd_old)) by {
                        assert forall|j: int|
                            0 <= j < s_cur.len() implies kids(s_cur, j) == #[trigger] kids(
                            fd_old,
                            j,
                        ) by {}
                    }
                    lemma_same_links_shape(t1, s_cur);
                    lemma_same_links_shape(s_cur, fd_old);
                    assert(same_links(s_m, fd_new)) by {
                        assert forall|j: int|
                            0 <= j < s_m.len() implies kids(s_m, j) == #[trigger] kids(
                            fd_new,
                            j,
                        ) by {}
                    }
                    lemma_same_links_shape(s_m, fd_new);
                    assert forall|j: int|
                        ck <= j < sub_end(fd_old, ck) implies fd_new[j] == fd_old[j] by {
                        assert(sub_end(fd_old, ck) == sub_end(t1, ck));
                        assert(j < e_kk);
                        assert(e_kk <= frontier(t1, 0, k as int));
                        assert(s_m[j] == s_d[j]);
                        assert(s_d[j] == s_cur[j]);
                    }
                    lemma_measured_frame(fd_old, fd_new, ck, mc, orcs[kk]);
                    assert(out@[kk].1 == measured(fd_new, ck, mc, orcs.push(orc_m)[kk]));
                } else {
                    assert(out@[kk].1 == sz);
                    assert(orcs.push(orc_m)[kk] == orc_m);
                }
            }
            orcs = orcs.push(orc_m);
        }
        k += 1;
    }
    proof {
        let inst = final(reg).entries@[fidx as int].instance;
        assert(registry_wf(*final(reg))) by {
            assert forall|ss: int|
                0 <= ss < reg.entries@.len() implies instance_wf(
                (#[trigger] reg.entries@[ss]).instance,
            ) by {
                if ss != fidx {
                    assert(reg.entries@[ss] == reg1.entries@[ss]);
                } else {
                    let tcur = reg.entries@[fidx as int].instance.tree.nodes@;
                    lemma_same_links_shape(t1, tcur);
                    assert(sub_end(tcur, 0) == sub_end(t1, 0));
                }
            }
            assert forall|s1: int, s2: int|
                0 <= s1 < s2 < reg.entries@.len() implies (#[trigger] reg.entries@[s1]).key != (
                #[trigger] reg.entries@[s2]).key by {
                assert(reg.entries@[s1].key == reg1.entries@[s1].key);
                assert(reg.entries@[s2].key == reg1.entries@[s2].key);
            }
        }
        assert(reg.entries@[fidx as int].key == key);
        assert(slot_results_ok(reg.entries@[fidx as int].instance, out@));
        assert(slot_results_measured(reg.entries@[fidx as int].instance, out@, mc)) by {
            let tfin = reg.entries@[fidx as int].instance.tree.nodes@;
            assert forall|k2: int| 0 <= k2 < out@.len() implies result_measured(
                tfin,
                kids(tfin, 0)[k2] as int,
                (#[trigger] out@[k2]).1,
                mc,
            ) by {
                let ck = kids(t1, 0)[k2] as int;
                assert(kids(tfin, 0) == kids(t1, 0));
                lemma_same_links_shape(t1, tfin);
                assert(sub_end(tfin, ck) == sub_end(t1, ck)) by {
                    lemma_sub_end_bounds(t1, ck);
                }
                assert(out@[k2].1 == measured(
                    force_dirty(tfin, ck, sub_end(t1, ck)),
                    ck,
                    mc,
                    orcs[k2],
                ));
            }
        }
        assert forall|s2: int|
            0 <= s2 < old(reg).entries@.len() && old(reg).entries@[s2].key != key implies (
        #[trigger] reg.entries@[s2]) == old(reg).entries@[s2] by {
            assert(s2 != fidx);
            assert(reg.entries@[s2] == reg1.entries@[s2]);
            assert(reg1.entries@[s2] == old(reg).entries@[s2]);
        }
        assert forall|s2: int|
            0 <= s2 < old(reg).entries@.len() && (#[trigger] old(reg).entries@[s2]).key == key
                implies instance_refreshed(
            old(reg).entries@[s2].instance,
            reg.entries@[s2].instance,
            content@,
        ) by {
            assert(s2 == fidx);
            let g2 = old(reg).entries@[fidx as int].instance.tree.nodes@;
            let tfin2 = reg.entries@[fidx as int].instance.tree.nodes@;
            assert forall|kk: int|
                0 <= kk < kids(g2, 0).len() && kk < content@.len() implies crate::compose::refreshed_from(
                g2,
                tfin2,
                kids(g2, 0)[kk] as int,
                #[trigger] content@[kk],
            ) by {
                let ck = kids(g2, 0)[kk] as int;
                lemma_sub_end_bounds(g2, ck);
                crate::tree::lemma_child_segment(g2, 0, kk);
                assert forall|j: int|
                    ck <= j < sub_end(g2, ck) implies (#[trigger] tfin2[j]).phase == t1[j].phase
                by {}
                crate::compose::lemma_refreshed_from_phases(
                    g2,
                    t1,
                    tfin2,
                    ck,
                    content@[kk],
                );
            }
        }
        if reg.entries@.len() > old(reg).entries@.len() {
            let tf = reg.entries@[fidx as int].instance.tree.nodes@;
            assert(tf[0].phase == t1[0].phase);
            assert(kids(tf, 0) == kids(t1, 0));
            assert forall|k: int| 0 <= k < content@.len() implies crate::compose::built_from(
                tf,
                kids(tf, 0)[k] as int,
                #[trigger] content@[k],
            ) by {
                let ck = kids(t1, 0)[k] as int;
                lemma_sub_end_bounds(t1, ck);
                lemma_child_segment(t1, 0, k);
                assert forall|j: int|
                    ck <= j < sub_end(t1, ck) implies j < tf.len() && (#[trigger] tf[j]).phase
                    == t1[j].phase && tf[j].children@ == t1[j].children@ by {
                    assert(kids(tf, j) == kids(t1, j));
                }
                crate::compose::lemma_built_from_keeps(t1, tf, ck, content@[k]);
            }
            assert(instance_built(reg.entries@[fidx as int].instance, content@));
        }
        assert forall|s2: int|
            0 <= s2 < old(reg).entries@.len() implies (#[trigger] reg.entries@[s2]).key == old(
            reg,
        ).entries@[s2].key && same_links(
            old(reg).entries@[s2].instance.tree.nodes@,
            reg.entries@[s2].instance.tree.nodes@,
        ) by {
            if s2 != fidx {
                assert(reg.entries@[s2] == reg1.entries@[s2]);
                assert(reg1.entries@[s2] == old(reg).entries@[s2]);
                let a = old(reg).entries@[s2].instance.tree.nodes@;
                assert forall|j: int| 0 <= j < a.len() implies kids(a, j) == #[trigger] kids(
                    a,
                    j,
                ) by {}
                assert(same_links(a, a));
            } else {
                let a = old(reg).entries@[s2].instance.tree.nodes@;
                let b = reg1.entries@[s2].instance.tree.nodes@;
                let d = reg.entries@[s2].instance.tree.nodes@;
                assert(same_links(b, d)) by {
                    assert(same_links(t1, d));
                }
                assert(same_links(a, b));
                assert forall|j: int| 0 <= j < a.len() implies kids(a, j) == #[trigger] kids(
                    d,
                    j,
                ) by {
                    assert(kids(a, j) == kids(b, j));
                    assert(kids(b, j) == kids(d, j));
                }
                assert(same_links(a, d));
            }
        }
    }
    out
}


/// The instance of the slot holding `key`; meaningful when the registry
/// holds one (keys are unique under `registry_wf`).
pub open spec fn slot_at(rg: Registry, key: int) -> Instance {
    rg.entries@[choose|s: int| 0 <= s < rg.entries@.len() && (#[trigger] rg.entries@[s]).key == key].instance
}

/// Heights of the listed children folded onto `h0`, saturating, in
/// order — exactly as the lazy pass accumulates the sizes a composition
/// hands back.
pub open spec fn acc_results(h0: int, t: Seq<Node>, cs: Seq<usize>, k: int) -> int
    decreases k,
{
    if k <= 0 {
        h0
    } else {
        spec_sat_add(acc_results(h0, t, cs, k - 1), t[cs[k - 1] as int].area.size.height as int)
    }
}

/// The accumulated height of the first `m` realized items: each item
/// key's instance contributes the heights of its top-level children, in
/// key order.
pub open spec fn items_height(rg: Registry, m: int) -> int
    decreases m,
{
    if m <= 0 {
        0
    } else {
        let t = slot_at(rg, m - 1).tree.nodes@;
        acc_results(items_height(rg, m - 1), t, kids(t, 0), kids(t, 0).len() as int)
    }
}

/// A two-pass outcome: under some probed width `mw`, the slot's children
/// were re-measured with the minimum width raised to `mw` — each stored
/// size a fresh measurement under that tightened box — and the result is
/// the clamp of `mw` by the stacked heights.
pub open spec fn two_pass_sized(rg: Registry, c: Constraints, r: Size, mw: i64) -> bool {
    let t = slot_at(rg, 1).tree.nodes@;
    let tight = Constraints {
        min: Size { width: mw, height: 0 },
        max: Size {
            width: crate::constraints::UNBOUNDED,
            height: crate::constraints::UNBOUNDED,
        },
    };
    &&& r == c.spec_apply(
        Size {
            width: mw,
            height: acc_results(0, t, kids(t, 0), kids(t, 0).len() as int) as i64,
        },
    )
    &&& forall|k: int|
        0 <= k < kids(t, 0).len() ==> result_measured(
            t,
            kids(t, 0)[k] as int,
            (#[trigger] t[kids(t, 0)[k] as int]).area.size,
            tight,
        )
}

/// The fold reads only the listed children's sizes.
pub proof fn lemma_acc_frame(h0: int, t1: Seq<Node>, t2: Seq<Node>, cs: Seq<usize>, k: int)
    requires
        forall|kk: int|
            0 <= kk < k ==> t2[cs[kk] as int].area.size == (#[trigger] t1[cs[kk] as int]).area.size,
    ensures
        acc_results(h0, t2, cs, k) == acc_results(h0, t1, cs, k),
    decreases k,
{
    if k > 0 {
        lemma_acc_frame(h0, t1, t2, cs, k - 1);
    }
}

/// A registry that keeps the slots of the first `m` item keys in place,
/// byte for byte, keeps their accumulated height.
pub proof fn lemma_items_height_stable(rg1: Registry, rg2: Registry, m: int)
    requires
        registry_wf(rg1),
        registry_wf(rg2),
        0 <= m,
        forall|k: int| 0 <= k < m ==> has_slot(rg1, k),
        forall|s: int|
            0 <= s < rg1.entries@.len() && ((#[trigger] rg1.entries@[s]).key as int) < m ==> s
                < rg2.entries@.len() && rg2.entries@[s] == rg1.entries@[s],
    ensures
        items_height(rg2, m) == items_height(rg1, m),
    decreases m,
{
    if m > 0 {
        lemma_items_height_stable(rg1, rg2, m - 1);
        assert(has_slot(rg1, m - 1));
        let s1 = choose|s: int|
            0 <= s < rg1.entries@.len() && (#[trigger] rg1.entries@[s]).key == m - 1;
        assert(rg2.entries@[s1] == rg1.entries@[s1]);
        assert(slot_at(rg1, m - 1) == rg1.entries@[s1].instance) by {
            let sc = choose|s: int|
                0 <= s < rg1.entries@.len() && (#[trigger] rg1.entries@[s]).key == m - 1;
            if sc != s1 {
                assert(rg1.entries@[sc].key == rg1.entries@[s1].key);
            }
        }
        assert(slot_at(rg2, m - 1) == rg2.entries@[s1].instance) by {
            let sc = choose|s: int|
                0 <= s < rg2.entries@.len() && (#[trigger] rg2.entries@[s]).key == m - 1;
            assert(rg2.entries@[s1].key == m - 1);
            if sc != s1 {
                assert(rg2.entries@[sc].key == rg2.entries@[s1].key);
            }
        }
        assert(slot_at(rg2, m - 1) == slot_at(rg1, m - 1));
    }
}

/// The registry holds a slot for this key.
pub open spec fn has_slot(rg: Registry, key: int) -> bool {
    exists|s: int| 0 <= s < rg.entries@.len() && (#[trigger] rg.entries@[s]).key == key
}

/// After a lazy pass, exactly the first `m` item keys have been realized,
/// on top of whatever slots already existed: no other item is ever
/// materialized.
pub open spec fn realized_prefix(a: Registry, b: Registry, count: int, m: int) -> bool {
    forall|kk: int|
        #![trigger has_slot(b, kk)]
        0 <= kk < count ==> (has_slot(b, kk) <==> (has_slot(a, kk) || kk < m))
}

/// Realizes up to `count` items, one slot per index: each item is
/// composed, measured loosely, and stacked below the previous ones; the
/// loop stops once the accumulated height reaches the incoming maximum.
/// Items never requested are never materialized, and slots persist across
/// passes.
#[verifier::loop_isolation(false)]
#[verifier::rlimit(40)]
pub fn run_lazy(reg: &mut Registry, count: usize, item: &Vec<Template>, c: Constraints) -> (r: Size)
    requires
        registry_wf(*old(reg)),
        templates_basic(item@),
        c.wf(),
    ensures
        registry_wf(*final(reg)),
        final(reg).entries@.len() >= old(reg).entries@.len(),
        forall|s: int|
            0 <= s < old(reg).entries@.len() ==> (#[trigger] final(reg).entries@[s]).key == old(reg).entries@[s].key && same_links(
                old(reg).entries@[s].instance.tree.nodes@,
                final(reg).entries@[s].instance.tree.nodes@,
            ),
        forall|s: int|
            old(reg).entries@.len() <= s < final(reg).entries@.len() ==> (#[trigger] final(reg).entries@[s]).key < count,
        forall|s: int|
            0 <= s < old(reg).entries@.len() && old(reg).entries@[s].key >= count ==> (
            #[trigger] final(reg).entries@[s]) == old(reg).entries@[s],
        c.min.width <= r.width <= c.max.width,
        c.min.height <= r.height <= c.max.height,
        exists|m: int|
            #![trigger realized_prefix(*old(reg), *final(reg), count as int, m)]
            0 <= m <= count && (m < count ==> r.height == c.max.height) && realized_prefix(
                *old(reg),
                *final(reg),
                count as int,
                m,
            ) && (m < count ==> items_height(*final(reg), m) >= c.max.height) && (forall|m2: int|
                0 < m2 < m ==> items_height(*final(reg), m2) < c.max.height),
    decreases 1int, 1int, 1int,
{
    let ghost reg0 = *reg;
    let mut w: i64 = c.min.width;
    let mut h: i64 = 0;
    let mut i: usize = 0;
    let mut done = false;
    while i < count && !done
        invariant
            i <= count,
            registry_wf(*reg),
            reg.entries@.len() >= reg0.entries@.len(),
            forall|s: int|
                0 <= s < reg0.entries@.len() ==> (#[trigger] reg.entries@[s]).key
                    == reg0.entries@[s].key && same_links(
                    reg0.entries@[s].instance.tree.nodes@,
                    reg.entries@[s].instance.tree.nodes@,
                ),
            forall|s: int|
                reg0.entries@.len() <= s < reg.entries@.len() ==> (#[trigger] reg.entries@[s]).key
                    < count,
            forall|s: int|
                0 <= s < reg0.entries@.len() && reg0.entries@[s].key >= count ==> (
                #[trigger] reg.entries@[s]) == reg0.entries@[s],
            realized_prefix(reg0, *reg, count as int, i as int),
            forall|kk: int| 0 <= kk < i ==> has_slot(*reg, kk),
            h == items_height(*reg, i as int),
            forall|m2: int| 0 < m2 < i ==> items_height(*reg, m2) < c.max.height,
            !done && i > 0 ==> h < c.max.height,
            done ==> h >= c.max.height,
        decreases count - i,
    {
        let ghost reg_it = *reg;
        let ghost h_enter = h as int;
        let lc = Constraints::default();
        let results = compose_slot(reg, i, item, c, lc);
        let ghost reg_c = *reg;
        let ghost si = choose|s: int|
            0 <= s < reg_c.entries@.len() && (#[trigger] reg_c.entries@[s]).key == i
                && reg_c.entries@[s].instance.constraints == c && slot_results_ok(
                reg_c.entries@[s].instance,
                results@,
            ) && slot_results_measured(reg_c.entries@[s].instance, results@, loose_box());
        let ghost ti = reg_c.entries@[si].instance.tree.nodes@;
        proof {
            assert(lc == loose_box());
            assert(slot_results_ok(reg_c.entries@[si].instance, results@));
        }
        let n = results.len();
        let mut k: usize = 0;
        while k < n
            invariant
                k <= n,
                n == results@.len(),
                registry_wf(*reg),
                reg.entries@.len() == reg_c.entries@.len(),
                forall|s: int|
                    0 <= s < reg_c.entries@.len() ==> (#[trigger] reg.entries@[s]).key
                        == reg_c.entries@[s].key && same_links(
                        reg_c.entries@[s].instance.tree.nodes@,
                        reg.entries@[s].instance.tree.nodes@,
                    ),
                forall|s: int|
                    0 <= s < reg_c.entries@.len() && reg_c.entries@[s].key != i ==> (
                    #[trigger] reg.entries@[s]) == reg_c.entries@[s],
                0 <= si < reg_c.entries@.len(),
                reg_c.entries@[si].key == i,
                n == kids(ti, 0).len(),
                reg.entries@[si].instance.tree.nodes@.len() == ti.len(),
                forall|kk: int|
                    0 <= kk < n ==> (#[trigger] reg.entries@[si].instance.tree.nodes@[kids(
                        ti,
                        0,
                    )[kk] as int]).area.size == ti[kids(ti, 0)[kk] as int].area.size,
                h == acc_results(h_enter, ti, kids(ti, 0), k as int),
            decreases n - k,
        {
            let pair = results[k];
            let ghost tcur = reg.entries@[si].instance.tree.nodes@;
            proof {
                assert(pair == results@[k as int]);
                assert(pair.1 == ti[kids(ti, 0)[k as int] as int].area.size);
                assert(reg.entries@[si].key == i);
            }
            slot_place_relative(reg, i, pair.0, 0, h);
            proof {
                let tnew = reg.entries@[si].instance.tree.nodes@;
                assert(placed_into(tcur, tnew, pair.0 as int, 0, h as int));
                assert forall|j: int|
                    0 <= j < tcur.len() implies (#[trigger] tnew[j]).area.size == tcur[
                    j].area.size by {
                    if (pair.0 as int) < tcur.len() {
                        if pair.0 as int <= j < sub_end(tcur, pair.0 as int) {
                            assert(tnew[j] == shifted_node(tcur[j], 0, h as int));
                        } else {
                            assert(tnew[j] == tcur[j]);
                        }
                    }
                }
                assert forall|kk: int|
                    0 <= kk < n implies (#[trigger] tnew[kids(ti, 0)[kk] as int]).area.size == ti[
                    kids(ti, 0)[kk] as int].area.size by {
                    let ck = kids(ti, 0)[kk] as int;
                    assert(tcur[ck].area.size == ti[ck].area.size);
                }
            }
            if pair.1.width > w {
                w = pair.1.width;
            }
            h = sat_add(h, pair.1.height);
            k += 1;
        }
        if h >= c.max.height {
            done = true;
        }
        proof {
            assert forall|s: int|
                0 <= s < reg0.entries@.len() implies (#[trigger] reg.entries@[s]).key
                == reg0.entries@[s].key && same_links(
                reg0.entries@[s].instance.tree.nodes@,
                reg.entries@[s].instance.tree.nodes@,
            ) by {
                assert(reg_c.entries@[s].key == reg_it.entries@[s].key);
            }
            assert forall|s: int|
                reg0.entries@.len() <= s < reg.entries@.len() implies (#[trigger] reg.entries@[
                s]).key < count by {
                if s < reg_it.entries@.len() {
                    assert(reg.entries@[s].key == reg_it.entries@[s].key);
                } else {
                    assert(reg.entries@[s].key == reg_c.entries@[s].key);
                    assert(reg_c.entries@[s].key == i);
                }
            }
            assert forall|s: int|
                0 <= s < reg0.entries@.len() && reg0.entries@[s].key >= count implies (
            #[trigger] reg.entries@[s]) == reg0.entries@[s] by {
                assert(reg_it.entries@[s] == reg0.entries@[s]);
                assert(reg_it.entries@[s].key != i);
                assert(reg_c.entries@[s] == reg_it.entries@[s]);
                assert(reg.entries@[s] == reg_c.entries@[s]);
            }
            assert forall|kk: int|
                #![trigger has_slot(*reg, kk)]
                0 <= kk < count implies (has_slot(*reg, kk) <==> (has_slot(reg0, kk) || kk < i
                + 1)) by {
                if has_slot(*reg, kk) {
                    let sw = choose|sw: int|
                        0 <= sw < reg.entries@.len() && (#[trigger] reg.entries@[sw]).key == kk;
                    if sw < reg_it.entries@.len() {
                        assert(reg.entries@[sw].key == reg_c.entries@[sw].key);
                        assert(reg_c.entries@[sw].key == reg_it.entries@[sw].key);
                        assert(has_slot(reg_it, kk));
                        assert(has_slot(reg0, kk) || kk < i);
                    } else {
                        assert(reg.entries@[sw].key == reg_c.entries@[sw].key);
                        assert(reg_c.entries@[sw].key == i);
                    }
                }
                if kk == i {
                    let sc = choose|sc: int|
                        0 <= sc < reg_c.entries@.len() && (#[trigger] reg_c.entries@[sc]).key
                            == kk;
                    assert(reg.entries@[sc].key == kk);
                    assert(has_slot(*reg, kk));
                } else if has_slot(reg0, kk) || kk < i {
                    assert(has_slot(reg_it, kk));
                    let si = choose|si: int|
                        0 <= si < reg_it.entries@.len() && (#[trigger] reg_it.entries@[si]).key
                            == kk;
                    assert(reg_c.entries@[si].key == kk);
                    assert(reg.entries@[si].key == kk);
                    assert(has_slot(*reg, kk));
                }
            }
            assert(realized_prefix(reg0, *reg, count as int, i + 1)) by {
                assert forall|kk: int|
                    #![trigger has_slot(*reg, kk)]
                    0 <= kk < count implies (has_slot(*reg, kk) <==> (has_slot(reg0, kk) || kk < i
                    + 1)) by {}
            }
            assert forall|kk: int| 0 <= kk < i + 1 implies has_slot(*reg, kk) by {
                if kk < i {
                    assert(has_slot(reg_it, kk));
                    let sk = choose|sk: int|
                        0 <= sk < reg_it.entries@.len() && (#[trigger] reg_it.entries@[sk]).key
                            == kk;
                    assert(reg_c.entries@[sk].key == kk);
                    assert(reg.entries@[sk].key == kk);
                } else {
                    assert(reg.entries@[si].key == i);
                }
            }
            assert(items_height(*reg, i as int) == h_enter) by {
                assert forall|s: int|
                    0 <= s < reg_it.entries@.len() && ((#[trigger] reg_it.entries@[s]).key as int)
                        < i implies s < reg.entries@.len() && reg.entries@[s] == reg_it.entries@[
                    s] by {
                    assert(reg_it.entries@[s].key != i);
                    assert(reg_c.entries@[s] == reg_it.entries@[s]);
                    assert(reg.entries@[s] == reg_c.entries@[s]);
                }
                lemma_items_height_stable(reg_it, *reg, i as int);
            }
            let tfin = reg.entries@[si].instance.tree.nodes@;
            assert(slot_at(*reg, i as int) == reg.entries@[si].instance) by {
                assert(reg.entries@[si].key == i);
                let sc = choose|sc: int|
                    0 <= sc < reg.entries@.len() && (#[trigger] reg.entries@[sc]).key == i;
                if sc != si {
                    assert(reg.entries@[sc].key == reg.entries@[si].key);
                }
            }
            assert(kids(tfin, 0) == kids(ti, 0)) by {
                assert(same_links(reg_c.entries@[si].instance.tree.nodes@, tfin));
            }
            assert(h == items_height(*reg, i + 1)) by {
                assert(acc_results(h_enter, tfin, kids(ti, 0), n as int) == acc_results(
                    h_enter,
                    ti,
                    kids(ti, 0),
                    n as int,
                )) by {
                    lemma_acc_frame(h_enter, ti, tfin, kids(ti, 0), n as int);
                }
            }
            assert forall|m2: int| 0 < m2 < i + 1 implies items_height(*reg, m2)
                < c.max.height by {
                if m2 < i {
                    assert(items_height(reg_it, m2) < c.max.height);
                    assert forall|s: int|
                        0 <= s < reg_it.entries@.len() && ((#[trigger] reg_it.entries@[
                        s]).key as int) < m2 implies s < reg.entries@.len() && reg.entries@[s]
                        == reg_it.entries@[s] by {
                        assert(reg_it.entries@[s].key != i);
                        assert(reg_c.entries@[s] == reg_it.entries@[s]);
                        assert(reg.entries@[s] == reg_c.entries@[s]);
                    }
                    lemma_items_height_stable(reg_it, *reg, m2);
                } else {
                    assert(m2 == i);
                    assert(h_enter < c.max.height);
                }
            }
        }
        i += 1;
    }
    let ghost m_exit = i as int;
    let r = c.apply(Size { width: w, height: h });
    proof {
        crate::constraints::lemma_apply_clamps(c, Size { width: w, height: h });
        if m_exit < count {
            assert(done);
            assert(h >= c.max.height);
            assert(r.height == c.max.height);
            assert(items_height(*reg, m_exit) >= c.max.height);
        }
        assert(realized_prefix(reg0, *reg, count as int, m_exit));
        assert(forall|m2: int| 0 < m2 < m_exit ==> items_height(*reg, m2) < c.max.height);
    }
    r
}

/// Measures the slot content loosely, raises the minimum width to the
/// widest measured child, re-composes under the tightened box, and stacks
/// the results.
#[verifier::loop_isolation(false)]
pub fn run_two_pass(reg: &mut Registry, content: &Vec<Template>, c: Constraints) -> (r: Size)
    requires
        registry_wf(*old(reg)),
        templates_basic(content@),
        c.wf(),
    ensures
        registry_wf(*final(reg)),
        final(reg).entries@.len() >= old(reg).entries@.len(),
        forall|s: int|
            0 <= s < old(reg).entries@.len() ==> (#[trigger] final(reg).entries@[s]).key == old(reg).entries@[s].key && same_links(
                old(reg).entries@[s].instance.tree.nodes@,
                final(reg).entries@[s].instance.tree.nodes@,
            ),
        forall|s: int|
            old(reg).entries@.len() <= s < final(reg).entries@.len() ==> (#[trigger] final(reg).entries@[s]).key == 1,
        c.min.width <= r.width <= c.max.width,
        c.min.height <= r.height <= c.max.height,
        exists|mw: i64|
            #![trigger two_pass_sized(*final(reg), c, r, mw)]
            mw >= 0 && two_pass_sized(*final(reg), c, r, mw),
    decreases 1int, 1int, 1int,
{
    let ghost reg0 = *reg;
    let probe = compose_slot(reg, 1, content, c, Constraints::default());
    let ghost reg_p = *reg;
    let mut maxw: i64 = 0;
    let mut k: usize = 0;
    while k < probe.len()
        invariant
            k <= probe@.len(),
            maxw >= 0,
        decreases probe@.len() - k,
    {
        if probe[k].1.width > maxw {
            maxw = probe[k].1.width;
        }
        k += 1;
    }
    let tight = Constraints::new(
        maxw,
        crate::constraints::UNBOUNDED,
        0,
        crate::constraints::UNBOUNDED,
    );
    let resized = compose_slot(reg, 1, content, c, tight);
    let ghost reg_r = *reg;
    let ghost si = choose|s: int|
        0 <= s < reg_r.entries@.len() && (#[trigger] reg_r.entries@[s]).key == 1
            && reg_r.entries@[s].instance.constraints == c && slot_results_ok(
            reg_r.entries@[s].instance,
            resized@,
        ) && slot_results_measured(reg_r.entries@[s].instance, resized@, tight);
    let ghost ti = reg_r.entries@[si].instance.tree.nodes@;
    proof {
        assert(tight == (Constraints {
            min: Size { width: maxw, height: 0 },
            max: Size {
                width: crate::constraints::UNBOUNDED,
                height: crate::constraints::UNBOUNDED,
            },
        }));
        assert(slot_results_ok(reg_r.entries@[si].instance, resized@));
    }
    let n2 = resized.len();
    let mut h: i64 = 0;
    let mut i: usize = 0;
    while i < n2
        invariant
            i <= n2,
            n2 == resized@.len(),
            registry_wf(*reg),
            reg.entries@.len() == reg_r.entries@.len(),
            forall|s: int|
                0 <= s < reg_r.entries@.len() ==> (#[trigger] reg.entries@[s]).key
                    == reg_r.entries@[s].key && same_links(
                    reg_r.entries@[s].instance.tree.nodes@,
                    reg.entries@[s].instance.tree.nodes@,
                ),
            0 <= si < reg_r.entries@.len(),
            reg_r.entries@[si].key == 1,
            n2 == kids(ti, 0).len(),
            reg.entries@[si].instance.tree.nodes@.len() == ti.len(),
            forall|kk: int|
                0 <= kk < ti.len() ==> (#[trigger] reg.entries@[si].instance.tree.nodes@[
                kk]).area.size == ti[kk].area.size && reg.entries@[si].instance.tree.nodes@[
                kk].phase == ti[kk].phase,
            h == acc_results(0, ti, kids(ti, 0), i as int),
        decreases n2 - i,
    {
        let pair = resized[i];
        let ghost tcur = reg.entries@[si].instance.tree.nodes@;
        proof {
            assert(pair == resized@[i as int]);
            assert(pair.1 == ti[kids(ti, 0)[i as int] as int].area.size);
            assert(reg.entries@[si].key == 1);
        }
        slot_place_relative(reg, 1, pair.0, 0, h);
        proof {
            let tnew = reg.entries@[si].instance.tree.nodes@;
            assert(placed_into(tcur, tnew, pair.0 as int, 0, h as int));
            assert forall|j: int|
                0 <= j < tcur.len() implies (#[trigger] tnew[j]).area.size == tcur[j].area.size
                && tnew[j].phase == tcur[j].phase by {
                if (pair.0 as int) < tcur.len() {
                    if pair.0 as int <= j < sub_end(tcur, pair.0 as int) {
                        assert(tnew[j] == shifted_node(tcur[j], 0, h as int));
                    } else {
                        assert(tnew[j] == tcur[j]);
                    }
                }
            }
        }
        h = sat_add(h, pair.1.height);
        i += 1;
    }
    let r = c.apply(Size { width: maxw, height: h });
    proof {
        crate::constraints::lemma_apply_clamps(c, Size { width: maxw, height: h });
        let tfin = reg.entries@[si].instance.tree.nodes@;
        assert(slot_at(*reg, 1) == reg.entries@[si].instance) by {
            assert(reg.entries@[si].key == 1);
            let sc = choose|sc: int|
                0 <= sc < reg.entries@.len() && (#[trigger] reg.entries@[sc]).key == 1;
            if sc != si {
                assert(reg.entries@[sc].key == reg.entries@[si].key);
            }
        }
        assert(kids(tfin, 0) == kids(ti, 0)) by {
            assert(same_links(reg_r.entries@[si].instance.tree.nodes@, tfin));
        }
        assert(acc_results(0, tfin, kids(ti, 0), n2 as int) == acc_results(
            0,
            ti,
            kids(ti, 0),
            n2 as int,
        )) by {
            assert(instance_wf(reg_r.entries@[si].instance));
            assert forall|kk: int|
                0 <= kk < n2 implies tfin[kids(ti, 0)[kk] as int].area.size == (#[trigger] ti[
                kids(ti, 0)[kk] as int]).area.size by {
                assert((kids(ti, 0)[kk] as int) < ti.len());
            }
            lemma_acc_frame(0, ti, tfin, kids(ti, 0), n2 as int);
        }
        assert forall|kk: int|
            0 <= kk < kids(tfin, 0).len() implies result_measured(
            tfin,
            kids(tfin, 0)[kk] as int,
            (#[trigger] tfin[kids(tfin, 0)[kk] as int]).area.size,
            tight,
        ) by {
            let ck = kids(ti, 0)[kk] as int;
            assert(instance_wf(reg_r.entries@[si].instance));
            lemma_sub_end_bounds(ti, ck);
            crate::tree::lemma_child_segment(ti, 0, kk);
            assert(result_measured(ti, ck, resized@[kk].1, tight));
            let orc_t = choose|orc: Seq<Size>|
                #![trigger measured(force_dirty(ti, ck, sub_end(ti, ck)), ck, tight, orc)]
                resized@[kk].1 == measured(force_dirty(ti, ck, sub_end(ti, ck)), ck, tight, orc);
            let fd1 = force_dirty(ti, ck, sub_end(ti, ck));
            let fd2 = force_dirty(tfin, ck, sub_end(tfin, ck));
            assert(same_links(ti, fd1)) by {
                assert forall|j: int| 0 <= j < ti.len() implies kids(ti, j) == #[trigger] kids(
                    fd1,
                    j,
                ) by {}
            }
            lemma_same_links_shape(ti, fd1);
            assert(same_links(ti, tfin));
            lemma_same_links_shape(ti, tfin);
            assert(same_links(tfin, fd2)) by {
                assert forall|j: int| 0 <= j < tfin.len() implies kids(tfin, j) == #[trigger] kids(
                    fd2,
                    j,
                ) by {}
            }
            lemma_same_links_shape(tfin, fd2);
            assert(sub_end(tfin, ck) == sub_end(ti, ck));
            assert forall|j: int|
                ck <= j < sub_end(fd1, ck) implies crate::measure::measure_view(
                fd1[j],
                #[trigger] fd2[j],
            ) by {
                assert(sub_end(fd1, ck) == sub_end(ti, ck));
                assert(fd1[j] == crate::tree::dirtied_node(ti[j]));
                assert(fd2[j] == crate::tree::dirtied_node(tfin[j]));
                assert(tfin[j].phase == ti[j].phase);
                assert(kids(tfin, j) == kids(ti, j));
            }
            lemma_measured_view(fd1, fd2, ck, tight, orc_t);
            assert(resized@[kk].1 == measured(fd2, ck, tight, orc_t));
            assert(tfin[ck].area.size == resized@[kk].1) by {
                assert(tfin[ck].area.size == ti[ck].area.size);
            }
        }
        assert(two_pass_sized(*reg, c, r, maxw));
        assert forall|s: int|
            0 <= s < reg0.entries@.len() implies (#[trigger] reg.entries@[s]).key
            == reg0.entries@[s].key && same_links(
            reg0.entries@[s].instance.tree.nodes@,
            reg.entries@[s].instance.tree.nodes@,
        ) by {
            assert(reg_p.entries@[s].key == reg0.entries@[s].key);
            assert(reg_r.entries@[s].key == reg_p.entries@[s].key);
        }
        assert forall|s: int|
            reg0.entries@.len() <= s < reg.entries@.len() implies (#[trigger] reg.entries@[
            s]).key == 1 by {
            if s < reg_p.entries@.len() {
                assert(reg.entries@[s].key == reg_r.entries@[s].key);
                assert(reg_r.entries@[s].key == reg_p.entries@[s].key);
                assert(reg_p.entries@[s].key == 1);
            } else {
                assert(reg.entries@[s].key == reg_r.entries@[s].key);
                assert(reg_r.entries@[s].key == 1);
            }
        }
    }
    r
}

} // verus!
