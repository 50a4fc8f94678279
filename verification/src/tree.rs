//! The node arena.
//!
//! A tree is one owning arena of nodes addressed by index. Children are
//! stored in depth-first preorder: a node at index `i` is followed
//! immediately by its first child's subtree, then its second child's, and
//! so on, so a subtree is the index range `[i, sub_end(i))`. All mutation
//! goes through the arena, never through an independently owned alias.

use vstd::prelude::*;

use crate::geometry::{Point, Rect, Size};
use crate::num::{sat_add, spec_sat_add};
use crate::policy::{ComposePolicy, DrawStep, MeasurePolicy};

verus! {

broadcast use vstd::std_specs::vec::group_vec_axioms;

/// What a node is: its behavior, identified by a handle, in one of four
/// phases.
#[derive(Debug)]
#[allow(inconsistent_fields)]
pub enum NodePhase {
    /// No measurement or drawing contribution of its own; anchors the
    /// content of a nested instance.
    Virtual,
    /// Measures itself by a measurement policy.
    Measurement { handle: u64, policy: MeasurePolicy },
    /// Measures itself by a compose policy through its slot registry,
    /// stored at `registry` in the owning engine.
    MeasurementCompose { handle: u64, policy: ComposePolicy, registry: usize },
    /// Draws itself by a step sequence; measures as its single child.
    Render { handle: u64, steps: Vec<DrawStep> },
}

/// One node of the arena: its structural children, its placement
/// rectangle, its phase, and its memoization state.
///
/// `area.size` is trustworthy only while `layout_dirty` is false;
/// `area.origin` is set only by a parent's placement call.
#[derive(Debug)]
pub struct Node {
    pub children: Vec<usize>,
    pub area: Rect,
    pub phase: NodePhase,
    pub layout_dirty: bool,
    pub render_dirty: bool,
    /// How many times this node's measurement behavior has run.
    pub measure_runs: u64,
    /// How many times this node's drawing behavior has run.
    pub draw_runs: u64,
}

/// An owning arena of nodes; the node at index zero is the root.
#[derive(Debug)]
pub struct Tree {
    pub nodes: Vec<Node>,
}

/// The children list of the node at `i`.
pub open spec fn kids(t: Seq<Node>, i: int) -> Seq<usize> {
    t[i].children@
}

/// Every child index points forward and into the arena.
pub open spec fn links_ok(t: Seq<Node>) -> bool {
    forall|i: int, k: int|
        0 <= i < t.len() && 0 <= k < kids(t, i).len() ==> i < (#[trigger] kids(t, i)[k]) as int
            && (kids(t, i)[k] as int) < t.len()
}

/// One past the last index of the subtree rooted at `i`: the end of the
/// last child's subtree, or `i + 1` for a leaf.
pub open spec fn sub_end(t: Seq<Node>, i: int) -> int
    decreases t.len() - i,
        when 0 <= i < t.len() && links_ok(t)
{
    if kids(t, i).len() == 0 {
        i + 1
    } else {
        sub_end(t, kids(t, i)[kids(t, i).len() - 1] as int)
    }
}

/// The node at `i` lays out its children in preorder: the first child
/// follows it immediately, and each next child starts where the previous
/// child's subtree ends.
pub open spec fn node_spans_ok(t: Seq<Node>, i: int) -> bool {
    (kids(t, i).len() > 0 ==> kids(t, i)[0] == i + 1) && (forall|k: int|
        0 <= k < kids(t, i).len() - 1 ==> (#[trigger] kids(t, i)[k + 1]) == sub_end(
            t,
            kids(t, i)[k] as int,
        ))
}

/// Preorder layout holds at every node.
pub open spec fn spans_ok(t: Seq<Node>) -> bool {
    forall|i: int| 0 <= i < t.len() ==> node_spans_ok(t, i)
}

/// The structural well-formedness of an arena.
pub open spec fn shape_ok(t: Seq<Node>) -> bool {
    links_ok(t) && spans_ok(t)
}

/// Two arenas with the same length and the same children everywhere.
pub open spec fn same_links(a: Seq<Node>, b: Seq<Node>) -> bool {
    a.len() == b.len() && forall|j: int| 0 <= j < a.len() ==> kids(a, j) == #[trigger] kids(b, j)
}

/// A subtree ends after its root and no later than the arena does.
pub proof fn lemma_sub_end_bounds(t: Seq<Node>, i: int)
    requires
        links_ok(t),
        0 <= i < t.len(),
    ensures
        i < sub_end(t, i) <= t.len(),
    decreases t.len() - i,
{
    if kids(t, i).len() > 0 {
        let c = kids(t, i)[kids(t, i).len() - 1] as int;
        lemma_sub_end_bounds(t, c);
    }
}

/// `sub_end` depends only on the children inside the subtree: if another
/// arena agrees on them, it agrees on the end.
pub proof fn lemma_sub_end_frame(t1: Seq<Node>, t2: Seq<Node>, i: int)
    requires
        links_ok(t1),
        links_ok(t2),
        0 <= i < t1.len(),
        i < t2.len(),
        sub_end(t1, i) <= t2.len(),
        forall|j: int| i <= j < sub_end(t1, i) ==> kids(t1, j) == #[trigger] kids(t2, j),
    ensures
        sub_end(t2, i) == sub_end(t1, i),
    decreases t1.len() - i,
{
    lemma_sub_end_bounds(t1, i);
    if kids(t1, i).len() > 0 {
        let c = kids(t1, i)[kids(t1, i).len() - 1] as int;
        lemma_sub_end_bounds(t1, c);
        lemma_sub_end_frame(t1, t2, c);
    }
}

/// An arena with the same links as a well-shaped one is well-shaped, with
/// the same subtree ends.
pub proof fn lemma_same_links_shape(a: Seq<Node>, b: Seq<Node>)
    requires
        shape_ok(a),
        same_links(a, b),
    ensures
        shape_ok(b),
        forall|i: int| 0 <= i < a.len() ==> sub_end(b, i) == sub_end(a, i),
{
    assert(links_ok(b));
    assert forall|i: int| 0 <= i < a.len() implies sub_end(b, i) == sub_end(a, i) by {
        lemma_sub_end_bounds(a, i);
        lemma_sub_end_frame(a, b, i);
    }
    assert forall|i: int| 0 <= i < b.len() implies node_spans_ok(b, i) by {
        assert(node_spans_ok(a, i));
        assert forall|k: int| 0 <= k < kids(b, i).len() - 1 implies (#[trigger] kids(b, i)[k + 1])
            == sub_end(b, kids(b, i)[k] as int) by {
            assert(kids(a, i)[k + 1] == sub_end(a, kids(a, i)[k] as int));
        }
    }
}

/// A child's subtree ends no later than its parent's.
pub proof fn lemma_child_segment(t: Seq<Node>, i: int, k: int)
    requires
        shape_ok(t),
        0 <= i < t.len(),
        0 <= k < kids(t, i).len(),
    ensures
        sub_end(t, kids(t, i)[k] as int) <= sub_end(t, i),
    decreases kids(t, i).len() - k,
{
    let c = kids(t, i)[k] as int;
    if k == kids(t, i).len() - 1 {
        assert(sub_end(t, i) == sub_end(t, c));
    } else {
        assert(node_spans_ok(t, i));
        assert(kids(t, i)[k + 1] == sub_end(t, c));
        lemma_child_segment(t, i, k + 1);
        let c2 = kids(t, i)[k + 1] as int;
        lemma_sub_end_bounds(t, c2);
    }
}

/// The start of the `k`-th child's segment under `i`, or the subtree end
/// once `k` passes the last child.
pub open spec fn frontier(t: Seq<Node>, i: int, k: int) -> int {
    if k < kids(t, i).len() {
        kids(t, i)[k] as int
    } else {
        sub_end(t, i)
    }
}


/// Child segment starts advance: each frontier lies before the next.
pub proof fn lemma_frontier_step(t: Seq<Node>, i: int, k: int)
    requires
        shape_ok(t),
        0 <= i < t.len(),
        0 <= k < kids(t, i).len(),
    ensures
        frontier(t, i, k) < frontier(t, i, k + 1),
{
    let c = kids(t, i)[k] as int;
    lemma_sub_end_bounds(t, c);
    assert(node_spans_ok(t, i));
    if k + 1 < kids(t, i).len() {
        assert(kids(t, i)[k + 1] == sub_end(t, c));
    } else {
        assert(sub_end(t, i) == sub_end(t, kids(t, i)[kids(t, i).len() - 1] as int));
    }
}

/// Frontiers never move backwards.
pub proof fn lemma_frontier_mono(t: Seq<Node>, i: int, k1: int, k2: int)
    requires
        shape_ok(t),
        0 <= i < t.len(),
        0 <= k1 <= k2 <= kids(t, i).len(),
    ensures
        frontier(t, i, k1) <= frontier(t, i, k2),
    decreases k2 - k1,
{
    if k1 < k2 {
        lemma_frontier_step(t, i, k1);
        lemma_frontier_mono(t, i, k1 + 1, k2);
    }
}

/// The node with its origin shifted by `(dx, dy)`, saturating.
pub open spec fn shifted_node(n: Node, dx: int, dy: int) -> Node {
    Node {
        area: Rect {
            origin: Point {
                x: spec_sat_add(n.area.origin.x as int, dx) as i64,
                y: spec_sat_add(n.area.origin.y as int, dy) as i64,
            },
            size: n.area.size,
        },
        ..n
    }
}

/// The node with both dirty flags raised.
pub open spec fn dirtied_node(n: Node) -> Node {
    Node { layout_dirty: true, render_dirty: true, ..n }
}

impl Node {
    /// A fresh node in the given phase: no children yet, a zero area,
    /// both dirty flags raised, no runs recorded.
    pub fn new(phase: NodePhase) -> (n: Node)
        ensures
            n.children@ == Seq::<usize>::empty(),
            n.area == (Rect { origin: Point { x: 0, y: 0 }, size: Size { width: 0, height: 0 } }),
            n.phase == phase,
            n.layout_dirty,
            n.render_dirty,
            n.measure_runs == 0,
            n.draw_runs == 0,
    {
        Node {
            children: Vec::new(),
            area: Rect { origin: Point { x: 0, y: 0 }, size: Size { width: 0, height: 0 } },
            phase,
            layout_dirty: true,
            render_dirty: true,
            measure_runs: 0,
            draw_runs: 0,
        }
    }
}

impl Tree {
    /// A well-formed tree: nonempty, well-shaped, and rooted at index zero,
    /// whose subtree is the whole arena.
    pub open spec fn wf(self) -> bool {
        0 < self.nodes@.len() && shape_ok(self.nodes@) && sub_end(self.nodes@, 0)
            == self.nodes@.len()
    }

    /// Shifts the origin of every node of the subtree rooted at `id` by
    /// `(dx, dy)`, saturating; everything else is untouched.
    #[verifier::loop_isolation(false)]
    pub fn shift_subtree(&mut self, id: usize, dx: i64, dy: i64)
        requires
            shape_ok(old(self).nodes@),
            id < old(self).nodes@.len(),
        ensures
            final(self).nodes@.len() == old(self).nodes@.len(),
            forall|j: int|
                id <= j < sub_end(old(self).nodes@, id as int) ==> final(self).nodes@[j]
                    == shifted_node(old(self).nodes@[j], dx as int, dy as int),
            forall|j: int|
                0 <= j < old(self).nodes@.len() && !(id <= j < sub_end(old(self).nodes@, id as int))
                    ==> final(self).nodes@[j] == old(self).nodes@[j],
        decreases self.nodes@.len() - id,
    {
        let ghost t0 = self.nodes@;
        proof {
            lemma_sub_end_bounds(t0, id as int);
            assert(node_spans_ok(t0, id as int));
        }
        let n = self.nodes[id].children.len();
        let mut k: usize = 0;
        while k < n
            invariant
                shape_ok(t0),
                id < t0.len(),
                n == kids(t0, id as int).len(),
                k <= n,
                self.nodes@.len() == t0.len(),
                frontier(t0, id as int, k as int) <= sub_end(t0, id as int),
                forall|j: int|
                    id + 1 <= j < frontier(t0, id as int, k as int) ==> self.nodes@[j]
                        == shifted_node(t0[j], dx as int, dy as int),
                forall|j: int|
                    0 <= j < t0.len() && !(id + 1 <= j < frontier(t0, id as int, k as int))
                        ==> self.nodes@[j] == t0[j],
            decreases n - k,
        {
            let ghost s = self.nodes@;
            proof {
                assert(same_links(t0, s));
                lemma_same_links_shape(t0, s);
            }
            let c = self.nodes[id].children[k];
            proof {
                assert(c == kids(t0, id as int)[k as int]);
                lemma_sub_end_bounds(t0, c as int);
                assert(node_spans_ok(t0, id as int));
            }
            self.shift_subtree(c, dx, dy);
            proof {
                assert(sub_end(s, c as int) == sub_end(t0, c as int));
                lemma_child_segment(t0, id as int, k as int);
                if k + 1 < n {
                    assert(kids(t0, id as int)[k + 1] == sub_end(t0, kids(t0, id as int)[k as int] as int));
                    assert(frontier(t0, id as int, k + 1) == sub_end(t0, c as int));
                } else {
                    assert(sub_end(t0, id as int) == sub_end(t0, c as int));
                    assert(frontier(t0, id as int, k + 1) == sub_end(t0, c as int));
                }
            }
            k += 1;
        }
        let node = &mut self.nodes[id];
        node.area.origin.x = sat_add(node.area.origin.x, dx);
        node.area.origin.y = sat_add(node.area.origin.y, dy);
    }

    /// Raises the layout and render flags of every node of the subtree
    /// rooted at `id`; everything else is untouched.
    #[verifier::loop_isolation(false)]
    pub fn mark_dirty(&mut self, id: usize)
        requires
            shape_ok(old(self).nodes@),
            id < old(self).nodes@.len(),
        ensures
            final(self).nodes@.len() == old(self).nodes@.len(),
            forall|j: int|
                id <= j < sub_end(old(self).nodes@, id as int) ==> final(self).nodes@[j]
                    == dirtied_node(old(self).nodes@[j]),
            forall|j: int|
                0 <= j < old(self).nodes@.len() && !(id <= j < sub_end(old(self).nodes@, id as int))
                    ==> final(self).nodes@[j] == old(self).nodes@[j],
        decreases self.nodes@.len() - id,
    {
        let ghost t0 = self.nodes@;
        proof {
            lemma_sub_end_bounds(t0, id as int);
            assert(node_spans_ok(t0, id as int));
        }
        let n = self.nodes[id].children.len();
        let mut k: usize = 0;
        while k < n
            invariant
                shape_ok(t0),
                id < t0.len(),
                n == kids(t0, id as int).len(),
                k <= n,
                self.nodes@.len() == t0.len(),
                frontier(t0, id as int, k as int) <= sub_end(t0, id as int),
                forall|j: int|
                    id + 1 <= j < frontier(t0, id as int, k as int) ==> self.nodes@[j]
                        == dirtied_node(t0[j]),
                forall|j: int|
                    0 <= j < t0.len() && !(id + 1 <= j < frontier(t0, id as int, k as int))
                        ==> self.nodes@[j] == t0[j],
            decreases n - k,
        {
            let ghost s = self.nodes@;
            proof {
                assert(same_links(t0, s));
                lemma_same_links_shape(t0, s);
            }
            let c = self.nodes[id].children[k];
            proof {
                assert(c == kids(t0, id as int)[k as int]);
                lemma_sub_end_bounds(t0, c as int);
                assert(node_spans_ok(t0, id as int));
            }
            self.mark_dirty(c);
            proof {
                assert(sub_end(s, c as int) == sub_end(t0, c as int));
                lemma_child_segment(t0, id as int, k as int);
                if k + 1 < n {
                    assert(kids(t0, id as int)[k + 1] == sub_end(t0, kids(t0, id as int)[k as int] as int));
                    assert(frontier(t0, id as int, k + 1) == sub_end(t0, c as int));
                } else {
                    assert(sub_end(t0, id as int) == sub_end(t0, c as int));
                    assert(frontier(t0, id as int, k + 1) == sub_end(t0, c as int));
                }
            }
            k += 1;
        }
        let node = &mut self.nodes[id];
        node.layout_dirty = true;
        node.render_dirty = true;
    }


    /// Places the node at `id` at the absolute position `(x, y)`: its
    /// origin becomes the target and every descendant's cached origin
    /// moves by the same delta, so the subtree stays internally
    /// consistent after the move.
    pub fn place(&mut self, id: usize, x: i64, y: i64)
        requires
            shape_ok(old(self).nodes@),
            id < old(self).nodes@.len(),
        ensures
            final(self).nodes@.len() == old(self).nodes@.len(),
            forall|j: int|
                id <= j < sub_end(old(self).nodes@, id as int) ==> final(self).nodes@[j]
                    == shifted_node(
                    old(self).nodes@[j],
                    crate::num::spec_sat_sub(
                        x as int,
                        old(self).nodes@[id as int].area.origin.x as int,
                    ),
                    crate::num::spec_sat_sub(
                        y as int,
                        old(self).nodes@[id as int].area.origin.y as int,
                    ),
                ),
            forall|j: int|
                0 <= j < old(self).nodes@.len() && !(id <= j < sub_end(old(self).nodes@, id as int))
                    ==> final(self).nodes@[j] == old(self).nodes@[j],
            i64::MIN <= x - old(self).nodes@[id as int].area.origin.x <= i64::MAX && i64::MIN <= y
                - old(self).nodes@[id as int].area.origin.y <= i64::MAX ==> final(self).nodes@[id as int].area.origin == (Point { x, y }),
    {
        proof {
            lemma_sub_end_bounds(self.nodes@, id as int);
        }
        let dx = crate::num::sat_sub(x, self.nodes[id].area.origin.x);
        let dy = crate::num::sat_sub(y, self.nodes[id].area.origin.y);
        self.shift_subtree(id, dx, dy);
    }

    /// Moves the node at `id` and all its descendants by `(x, y)`,
    /// relative to their current origins.
    pub fn place_relative(&mut self, id: usize, x: i64, y: i64)
        requires
            shape_ok(old(self).nodes@),
            id < old(self).nodes@.len(),
        ensures
            final(self).nodes@.len() == old(self).nodes@.len(),
            forall|j: int|
                id <= j < sub_end(old(self).nodes@, id as int) ==> final(self).nodes@[j]
                    == shifted_node(old(self).nodes@[j], x as int, y as int),
            forall|j: int|
                0 <= j < old(self).nodes@.len() && !(id <= j < sub_end(old(self).nodes@, id as int))
                    ==> final(self).nodes@[j] == old(self).nodes@[j],
    {
        self.shift_subtree(id, x, y);
    }

    /// Raises only the render flag of the node at `id`.
    pub fn mark_render_dirty(&mut self, id: usize)
        requires
            id < old(self).nodes@.len(),
        ensures
            final(self).nodes@ == old(self).nodes@.update(
                id as int,
                Node { render_dirty: true, ..old(self).nodes@[id as int] },
            ),
        no_unwind
    {
        let node = &mut self.nodes[id];
        node.render_dirty = true;
    }
}

} // verus!
