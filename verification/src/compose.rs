//! Building and updating node trees from templates.
//!
//! A builder call either constructs a fresh node in the requested phase,
//! dirty by default, or finds the node it declared on an earlier pass and
//! compares the freshly supplied behavior handle against the stored one:
//! a different handle replaces the behavior and dirties the node, the same
//! handle changes nothing.

use vstd::prelude::*;

use crate::constraints::Constraints;
use crate::geometry::{Point, Rect, Size};
use crate::policy::{ceq, ComposePolicy, Template};
use crate::tree::{
    frontier, kids, lemma_child_segment, lemma_same_links_shape, lemma_sub_end_bounds,
    lemma_sub_end_frame, links_ok, node_spans_ok, same_links, shape_ok, spans_ok, sub_end, Node,
    NodePhase, Tree,
};

verus! {

broadcast use vstd::std_specs::vec::group_vec_axioms;

/// One nested engine instance held by a slot: its own arena, rooted at a
/// virtual anchor, and the constraints it was last composed under. The
/// drawing surface stays with the outer engine and is only borrowed.
#[derive(Debug)]
pub struct Instance {
    pub tree: Tree,
    pub constraints: Constraints,
}

/// One slot of a registry: a key and the instance it holds.
#[derive(Debug)]
pub struct Slot {
    pub key: usize,
    pub instance: Instance,
}

/// A keyed registry of nested engine instances. Once created, a key's
/// instance persists and is reused; no slot is ever evicted.
#[derive(Debug)]
pub struct Registry {
    pub entries: Vec<Slot>,
}

/// An arena without subcompose nodes; nested instances are of this kind.
pub open spec fn tree_basic(t: Seq<Node>) -> bool {
    forall|j: int|
        0 <= j < t.len() ==> !((#[trigger] t[j].phase) matches NodePhase::MeasurementCompose { .. })
}

/// A freshly constructed node: dirty in both ways, zero area, no runs.
pub open spec fn fresh_node_ok(n: Node) -> bool {
    n.layout_dirty && n.render_dirty && n.area == (Rect {
        origin: Point { x: 0, y: 0 },
        size: Size { width: 0, height: 0 },
    }) && n.measure_runs == 0 && n.draw_runs == 0
}

/// The subtree at `i` carries the template's behavior handles: same node
/// kinds, same handles, children matching the template's content, one for
/// one. Slot content lives in registries, not under the node, so a
/// subcompose node has no structural children.
pub open spec fn handles_match(t: Seq<Node>, i: int, tpl: Template) -> bool
    decreases tpl,
{
    &&& 0 <= i < t.len()
    &&& match tpl {
        Template::Layout { handle, content, .. } => {
            &&& t[i].phase matches NodePhase::Measurement { handle: h, .. } && h == handle
            &&& kids(t, i).len() == content@.len()
            &&& forall|k: int|
                0 <= k < content@.len() ==> handles_match(
                    t,
                    kids(t, i)[k] as int,
                    #[trigger] content@[k],
                )
        },
        Template::SubcomposeLayout { handle, .. } => {
            &&& t[i].phase matches NodePhase::MeasurementCompose { handle: h, .. } && h == handle
            &&& kids(t, i).len() == 0
        },
        Template::Draw { handle, content, .. } => {
            &&& t[i].phase matches NodePhase::Render { handle: h, .. } && h == handle
            &&& kids(t, i).len() == content@.len()
            &&& forall|k: int|
                0 <= k < content@.len() ==> handles_match(
                    t,
                    kids(t, i)[k] as int,
                    #[trigger] content@[k],
                )
        },
    }
}

/// The subtree at `i` stores the template's behaviors themselves, not just
/// their handles.
pub open spec fn policies_ok(t: Seq<Node>, i: int, tpl: Template) -> bool
    decreases tpl,
{
    &&& 0 <= i < t.len()
    &&& match tpl {
        Template::Layout { policy, content, .. } => {
            &&& t[i].phase matches NodePhase::Measurement { policy: p, .. } && p == policy
            &&& kids(t, i).len() == content@.len()
            &&& forall|k: int|
                0 <= k < content@.len() ==> policies_ok(
                    t,
                    kids(t, i)[k] as int,
                    #[trigger] content@[k],
                )
        },
        Template::SubcomposeLayout { policy, .. } => {
            &&& t[i].phase matches NodePhase::MeasurementCompose { policy: p, .. } && ceq(p, policy)
        },
        Template::Draw { steps, content, .. } => {
            &&& t[i].phase matches NodePhase::Render { steps: s, .. } && s@ == steps@
            &&& kids(t, i).len() == content@.len()
            &&& forall|k: int|
                0 <= k < content@.len() ==> policies_ok(
                    t,
                    kids(t, i)[k] as int,
                    #[trigger] content@[k],
                )
        },
    }
}

/// The subtree at `i` was built from the template: handles and behaviors.
pub open spec fn built_from(t: Seq<Node>, i: int, tpl: Template) -> bool {
    handles_match(t, i, tpl) && policies_ok(t, i, tpl)
}


/// `handles_match` reads only phases and children: it survives any change
/// that keeps them.
pub proof fn lemma_handles_match_keeps(t1: Seq<Node>, t2: Seq<Node>, i: int, tpl: Template)
    requires
        shape_ok(t1),
        handles_match(t1, i, tpl),
        forall|j: int|
            i <= j < sub_end(t1, i) ==> j < t2.len() && (#[trigger] t2[j]).phase == t1[j].phase
                && t2[j].children@ == t1[j].children@,
    ensures
        handles_match(t2, i, tpl),
    decreases tpl,
{
    lemma_sub_end_bounds(t1, i);
    match tpl {
        Template::Layout { content, .. } => {
            assert forall|k: int| 0 <= k < content@.len() implies handles_match(
                t2,
                kids(t2, i)[k] as int,
                #[trigger] content@[k],
            ) by {
                let c = kids(t1, i)[k] as int;
                lemma_sub_end_bounds(t1, c);
                lemma_child_segment(t1, i, k);
                assert forall|j: int|
                    c <= j < sub_end(t1, c) implies j < t2.len() && (#[trigger] t2[j]).phase
                    == t1[j].phase && t2[j].children@ == t1[j].children@ by {
                    assert(i <= j < sub_end(t1, i));
                }
                lemma_handles_match_keeps(t1, t2, c, content@[k]);
            }
        },
        Template::SubcomposeLayout { .. } => {},
        Template::Draw { content, .. } => {
            assert forall|k: int| 0 <= k < content@.len() implies handles_match(
                t2,
                kids(t2, i)[k] as int,
                #[trigger] content@[k],
            ) by {
                let c = kids(t1, i)[k] as int;
                lemma_sub_end_bounds(t1, c);
                lemma_child_segment(t1, i, k);
                assert forall|j: int|
                    c <= j < sub_end(t1, c) implies j < t2.len() && (#[trigger] t2[j]).phase
                    == t1[j].phase && t2[j].children@ == t1[j].children@ by {
                    assert(i <= j < sub_end(t1, i));
                }
                lemma_handles_match_keeps(t1, t2, c, content@[k]);
            }
        },
    }
}

/// `policies_ok` reads only phases and children: it survives any change
/// that keeps them.
pub proof fn lemma_policies_ok_keeps(t1: Seq<Node>, t2: Seq<Node>, i: int, tpl: Template)
    requires
        shape_ok(t1),
        policies_ok(t1, i, tpl),
        forall|j: int|
            i <= j < sub_end(t1, i) ==> j < t2.len() && (#[trigger] t2[j]).phase == t1[j].phase
                && t2[j].children@ == t1[j].children@,
    ensures
        policies_ok(t2, i, tpl),
    decreases tpl,
{
    lemma_sub_end_bounds(t1, i);
    match tpl {
        Template::Layout { content, .. } => {
            assert forall|k: int| 0 <= k < content@.len() implies policies_ok(
                t2,
                kids(t2, i)[k] as int,
                #[trigger] content@[k],
            ) by {
                let c = kids(t1, i)[k] as int;
                lemma_sub_end_bounds(t1, c);
                lemma_child_segment(t1, i, k);
                assert forall|j: int|
                    c <= j < sub_end(t1, c) implies j < t2.len() && (#[trigger] t2[j]).phase
                    == t1[j].phase && t2[j].children@ == t1[j].children@ by {
                    assert(i <= j < sub_end(t1, i));
                }
                lemma_policies_ok_keeps(t1, t2, c, content@[k]);
            }
        },
        Template::SubcomposeLayout { .. } => {},
        Template::Draw { content, .. } => {
            assert forall|k: int| 0 <= k < content@.len() implies policies_ok(
                t2,
                kids(t2, i)[k] as int,
                #[trigger] content@[k],
            ) by {
                let c = kids(t1, i)[k] as int;
                lemma_sub_end_bounds(t1, c);
                lemma_child_segment(t1, i, k);
                assert forall|j: int|
                    c <= j < sub_end(t1, c) implies j < t2.len() && (#[trigger] t2[j]).phase
                    == t1[j].phase && t2[j].children@ == t1[j].children@ by {
                    assert(i <= j < sub_end(t1, i));
                }
                lemma_policies_ok_keeps(t1, t2, c, content@[k]);
            }
        },
    }
}

/// `built_from` reads only phases and children: it survives any change
/// that keeps them.
pub proof fn lemma_built_from_keeps(t1: Seq<Node>, t2: Seq<Node>, i: int, tpl: Template)
    requires
        shape_ok(t1),
        built_from(t1, i, tpl),
        forall|j: int|
            i <= j < sub_end(t1, i) ==> j < t2.len() && (#[trigger] t2[j]).phase == t1[j].phase
                && t2[j].children@ == t1[j].children@,
    ensures
        built_from(t2, i, tpl),
{
    lemma_handles_match_keeps(t1, t2, i, tpl);
    lemma_policies_ok_keeps(t1, t2, i, tpl);
}

/// In a prefix of the arena closed under child links, a subtree ends
/// within the prefix.
pub proof fn lemma_closed_prefix(t: Seq<Node>, x: int, m: int)
    requires
        links_ok(t),
        0 <= x < m <= t.len(),
        forall|i: int, k: int|
            0 <= i < m && 0 <= k < kids(t, i).len() ==> (#[trigger] kids(t, i)[k]) < m,
    ensures
        sub_end(t, x) <= m,
    decreases t.len() - x,
{
    if kids(t, x).len() > 0 {
        let c = kids(t, x)[kids(t, x).len() - 1] as int;
        lemma_closed_prefix(t, c, m);
    }
}

/// `handles_match` reads only the subtree: it survives changes elsewhere.
pub proof fn lemma_handles_match_frame(t1: Seq<Node>, t2: Seq<Node>, i: int, tpl: Template)
    requires
        shape_ok(t1),
        handles_match(t1, i, tpl),
        sub_end(t1, i) <= t2.len(),
        forall|j: int| i <= j < sub_end(t1, i) ==> t2[j] == t1[j],
    ensures
        handles_match(t2, i, tpl),
    decreases tpl,
{
    lemma_sub_end_bounds(t1, i);
    match tpl {
        Template::Layout { content, .. } => {
            assert forall|k: int| 0 <= k < content@.len() implies handles_match(
                t2,
                kids(t2, i)[k] as int,
                #[trigger] content@[k],
            ) by {
                let c = kids(t1, i)[k] as int;
                lemma_sub_end_bounds(t1, c);
                lemma_child_segment(t1, i, k);
                assert forall|j: int| c <= j < sub_end(t1, c) implies t2[j] == t1[j] by {
                    assert(i <= j < sub_end(t1, i));
                }
                lemma_handles_match_frame(t1, t2, c, content@[k]);
            }
        },
        Template::SubcomposeLayout { .. } => {},
        Template::Draw { content, .. } => {
            assert forall|k: int| 0 <= k < content@.len() implies handles_match(
                t2,
                kids(t2, i)[k] as int,
                #[trigger] content@[k],
            ) by {
                let c = kids(t1, i)[k] as int;
                lemma_sub_end_bounds(t1, c);
                lemma_child_segment(t1, i, k);
                assert forall|j: int| c <= j < sub_end(t1, c) implies t2[j] == t1[j] by {
                    assert(i <= j < sub_end(t1, i));
                }
                lemma_handles_match_frame(t1, t2, c, content@[k]);
            }
        },
    }
}

/// `policies_ok` reads only the subtree: it survives changes elsewhere.
pub proof fn lemma_policies_ok_frame(t1: Seq<Node>, t2: Seq<Node>, i: int, tpl: Template)
    requires
        shape_ok(t1),
        policies_ok(t1, i, tpl),
        sub_end(t1, i) <= t2.len(),
        forall|j: int| i <= j < sub_end(t1, i) ==> t2[j] == t1[j],
    ensures
        policies_ok(t2, i, tpl),
    decreases tpl,
{
    lemma_sub_end_bounds(t1, i);
    match tpl {
        Template::Layout { content, .. } => {
            assert forall|k: int| 0 <= k < content@.len() implies policies_ok(
                t2,
                kids(t2, i)[k] as int,
                #[trigger] content@[k],
            ) by {
                let c = kids(t1, i)[k] as int;
                lemma_sub_end_bounds(t1, c);
                lemma_child_segment(t1, i, k);
                assert forall|j: int| c <= j < sub_end(t1, c) implies t2[j] == t1[j] by {
                    assert(i <= j < sub_end(t1, i));
                }
                lemma_policies_ok_frame(t1, t2, c, content@[k]);
            }
        },
        Template::SubcomposeLayout { .. } => {},
        Template::Draw { content, .. } => {
            assert forall|k: int| 0 <= k < content@.len() implies policies_ok(
                t2,
                kids(t2, i)[k] as int,
                #[trigger] content@[k],
            ) by {
                let c = kids(t1, i)[k] as int;
                lemma_sub_end_bounds(t1, c);
                lemma_child_segment(t1, i, k);
                assert forall|j: int| c <= j < sub_end(t1, c) implies t2[j] == t1[j] by {
                    assert(i <= j < sub_end(t1, i));
                }
                lemma_policies_ok_frame(t1, t2, c, content@[k]);
            }
        },
    }
}

/// `built_from` reads only the subtree: it survives changes elsewhere.
pub proof fn lemma_built_from_frame(t1: Seq<Node>, t2: Seq<Node>, i: int, tpl: Template)
    requires
        shape_ok(t1),
        built_from(t1, i, tpl),
        sub_end(t1, i) <= t2.len(),
        forall|j: int| i <= j < sub_end(t1, i) ==> t2[j] == t1[j],
    ensures
        built_from(t2, i, tpl),
{
    lemma_handles_match_frame(t1, t2, i, tpl);
    lemma_policies_ok_frame(t1, t2, i, tpl);
}

/// Appending a childless node to a well-shaped arena keeps it well-shaped;
/// the new node spans one index and older subtrees keep their ends.
pub proof fn lemma_append_leaf(t1: Seq<Node>, t2: Seq<Node>)
    requires
        shape_ok(t1),
        t2.len() == t1.len() + 1,
        forall|j: int| 0 <= j < t1.len() ==> t2[j] == t1[j],
        kids(t2, t1.len() as int).len() == 0,
    ensures
        shape_ok(t2),
        sub_end(t2, t1.len() as int) == t2.len(),
        forall|i: int| 0 <= i < t1.len() ==> sub_end(t2, i) == sub_end(t1, i),
{
    assert forall|i: int, k: int|
        0 <= i < t2.len() && 0 <= k < kids(t2, i).len() implies i < (#[trigger] kids(t2, i)[k]) as int
        && (kids(t2, i)[k] as int) < t2.len() by {
        assert(i < t1.len());
        assert(kids(t2, i) == kids(t1, i));
    }
    assert(links_ok(t2));
    assert forall|i: int| 0 <= i < t1.len() implies sub_end(t2, i) == sub_end(t1, i) by {
        lemma_sub_end_bounds(t1, i);
        lemma_sub_end_frame(t1, t2, i);
    }
    assert forall|i: int| 0 <= i < t2.len() implies node_spans_ok(t2, i) by {
        if i < t1.len() {
            assert(node_spans_ok(t1, i));
            assert forall|k: int|
                0 <= k < kids(t2, i).len() - 1 implies (#[trigger] kids(t2, i)[k + 1]) == sub_end(
                t2,
                kids(t2, i)[k] as int,
            ) by {
                assert(kids(t1, i)[k + 1] == sub_end(t1, kids(t1, i)[k] as int));
            }
        }
    }
}

/// A node's stored compose policy, if any, realizes only basic content.
pub open spec fn node_pol_basic(n: Node) -> bool {
    n.phase matches NodePhase::MeasurementCompose { policy, .. }
        ==> crate::policy::policy_items_basic(policy)
}

/// Every stored compose policy of the arena realizes only basic content.
pub open spec fn pols_basic(t: Seq<Node>) -> bool {
    forall|j: int| 0 <= j < t.len() ==> node_pol_basic(#[trigger] t[j])
}

/// A subcompose node's registry index lies in `[lo, hi)`; other phases
/// carry none.
pub open spec fn reg_in_range(ph: NodePhase, lo: int, hi: int) -> bool {
    ph matches NodePhase::MeasurementCompose { registry, .. } ==> lo <= registry < hi
}

/// Registering a completed child subtree with its parent keeps the arena
/// well-shaped: the parent's span grows to the arena's end, everything
/// else keeps its span.
pub proof fn lemma_register_child(s: Seq<Node>, u: Seq<Node>, p: int, c: int)
    requires
        shape_ok(s),
        0 <= p < c < s.len(),
        c <= usize::MAX as int,
        sub_end(s, p) == c,
        sub_end(s, c) == s.len(),
        forall|j: int, k: int|
            0 <= j < p && 0 <= k < kids(s, j).len() ==> (#[trigger] kids(s, j)[k]) < p,
        u.len() == s.len(),
        forall|j: int| 0 <= j < s.len() && j != p ==> u[j] == s[j],
        kids(u, p) == kids(s, p).push(c as usize),
    ensures
        shape_ok(u),
        sub_end(u, p) == u.len(),
        forall|j: int| 0 <= j < s.len() && j != p ==> sub_end(u, j) == sub_end(s, j),
{
    assert forall|i: int, k: int|
        0 <= i < u.len() && 0 <= k < kids(u, i).len() implies i < (#[trigger] kids(u, i)[k]) as int
        && (kids(u, i)[k] as int) < u.len() by {
        if i == p {
            if k < kids(s, p).len() {
                assert(kids(u, i)[k] == kids(s, p)[k]);
                assert(p < kids(s, p)[k] as int && (kids(s, p)[k] as int) < s.len());
            } else {
                assert(kids(u, i)[k] == c as usize);
                assert((c as usize) as int == c);
            }
        } else {
            assert(kids(u, i) == kids(s, i));
            assert(kids(u, i)[k] == kids(s, i)[k]);
            assert(i < kids(s, i)[k] as int && (kids(s, i)[k] as int) < s.len());
        }
    }
    assert(links_ok(u));
    assert forall|j: int| 0 <= j < s.len() && j != p implies sub_end(u, j) == sub_end(s, j) by {
        lemma_sub_end_bounds(s, j);
        if j < p {
            lemma_closed_prefix(s, j, p);
        }
        assert forall|jj: int| j <= jj < sub_end(s, j) implies kids(s, jj) == kids(u, jj) by {
            assert(jj != p);
        }
        lemma_sub_end_frame(s, u, j);
    }
    assert(kids(u, p).len() > 0);
    assert(kids(u, p)[kids(u, p).len() - 1] == c as usize);
    assert((c as usize) as int == c);
    assert(sub_end(u, p) == sub_end(u, (c as usize) as int));
    assert(sub_end(u, p) == u.len());
    assert forall|i: int| 0 <= i < u.len() implies node_spans_ok(u, i) by {
        if i == p {
            if kids(s, p).len() == 0 {
                assert(kids(u, p)[0] == c);
                assert(c == p + 1);
            } else {
                assert(node_spans_ok(s, p));
                assert forall|k: int|
                    0 <= k < kids(u, p).len() - 1 implies (#[trigger] kids(u, p)[k + 1]) == sub_end(
                    u,
                    kids(u, p)[k] as int,
                ) by {
                    if k < kids(s, p).len() - 1 {
                        assert(kids(u, p)[k + 1] == kids(s, p)[k + 1]);
                        assert(kids(s, p)[k + 1] == sub_end(s, kids(s, p)[k] as int));
                    } else {
                        let last = kids(s, p)[kids(s, p).len() - 1] as int;
                        assert(kids(u, p)[k] == kids(s, p)[k]);
                        assert(sub_end(s, p) == sub_end(s, last));
                        assert(kids(u, p)[k + 1] == c);
                    }
                }
            }
        } else {
            assert(node_spans_ok(s, i));
            assert forall|k: int|
                0 <= k < kids(u, i).len() - 1 implies (#[trigger] kids(u, i)[k + 1]) == sub_end(
                u,
                kids(u, i)[k] as int,
            ) by {
                assert(kids(u, i) == kids(s, i));
                assert(kids(s, i)[k + 1] == sub_end(s, kids(s, i)[k] as int));
                assert(kids(s, i)[k] as int != p);
            }
        }
    }
}

impl Tree {
    /// Appends a fresh subtree built from the template, returning its root
    /// index. New subcompose nodes get fresh empty registries appended to
    /// `regs`; a basic template touches no registries.
    pub fn build_node(&mut self, regs: &mut Vec<Registry>, tpl: &Template) -> (p: usize)
        requires
            shape_ok(old(self).nodes@),
        ensures
            p == old(self).nodes@.len(),
            final(self).nodes@.len() > p,
            shape_ok(final(self).nodes@),
            sub_end(final(self).nodes@, p as int) == final(self).nodes@.len(),
            forall|j: int| 0 <= j < p ==> final(self).nodes@[j] == old(self).nodes@[j],
            built_from(final(self).nodes@, p as int, *tpl),
            forall|j: int|
                p <= j < final(self).nodes@.len() ==> fresh_node_ok(
                    #[trigger] final(self).nodes@[j],
                ),
            final(regs)@.len() >= old(regs)@.len(),
            forall|q: int| 0 <= q < old(regs)@.len() ==> final(regs)@[q] == old(regs)@[q],
            forall|q: int|
                old(regs)@.len() <= q < final(regs)@.len() ==> (#[trigger] final(regs)@[q]).entries@.len() == 0,
            forall|j: int|
                p <= j < final(self).nodes@.len() ==> reg_in_range(
                    (#[trigger] final(self).nodes@[j]).phase,
                    old(regs)@.len() as int,
                    final(regs)@.len() as int,
                ),
            crate::policy::template_basic(*tpl) ==> final(regs)@ == old(regs)@,
            crate::policy::template_basic(*tpl) ==> forall|j: int|
                p <= j < final(self).nodes@.len() ==> !((#[trigger] final(self).nodes@[j]).phase
                    matches NodePhase::MeasurementCompose { .. }),
            pols_basic(old(self).nodes@) && crate::policy::template_wf(*tpl) ==> pols_basic(
                final(self).nodes@,
            ),
        decreases *tpl,
    {
        let p = self.nodes.len();
        let ghost t0 = self.nodes@;
        match tpl {
            Template::Layout { handle, policy, content } => {
                self.nodes.push(Node::new(NodePhase::Measurement { handle: *handle, policy: *policy }));
                proof {
                    lemma_append_leaf(t0, self.nodes@);
                if pols_basic(t0) && crate::policy::template_wf(*tpl) {
                    assert forall|j: int|
                        0 <= j < self.nodes@.len() implies node_pol_basic(
                        #[trigger] self.nodes@[j],
                    ) by {
                        if j < t0.len() {
                            assert(self.nodes@[j] == t0[j]);
                        }
                    }
                }
                    assert forall|j: int, kk: int|
                        0 <= j < p && 0 <= kk < kids(self.nodes@, j).len() implies (#[trigger] kids(
                        self.nodes@,
                        j,
                    )[kk]) < p by {
                        assert(self.nodes@[j] == t0[j]);
                        assert(j < kids(t0, j)[kk] as int && (kids(t0, j)[kk] as int) < t0.len());
                    }
                }
                self.build_children(regs, p, content);
            },
            Template::SubcomposeLayout { handle, policy } => {
                let r = regs.len();
                regs.push(Registry { entries: Vec::new() });
                self.nodes.push(
                    Node::new(NodePhase::MeasurementCompose {
                            handle: *handle,
                            policy: crate::policy::clone_compose_policy(policy),
                            registry: r,
                        }),
                );
                proof {
                    lemma_append_leaf(t0, self.nodes@);
                    if crate::policy::template_wf(*tpl) {
                        match self.nodes@[p as int].phase {
                            NodePhase::MeasurementCompose { policy: sp, .. } => {
                                assert(*tpl == (Template::SubcomposeLayout {
                                    handle: *handle,
                                    policy: *policy,
                                }));
                                assert(crate::policy::compose_policy_wf(*policy));
                                assert(crate::policy::policy_items_basic(*policy)) by {
                                    match *policy {
                                        ComposePolicy::LazyColumn { .. } => {},
                                        ComposePolicy::TwoPass { .. } => {},
                                    }
                                }
                                crate::policy::lemma_ceq_items_basic(sp, *policy);
                                assert(crate::policy::policy_items_basic(sp));
                            },
                            _ => {},
                        }
                    }
                if pols_basic(t0) && crate::policy::template_wf(*tpl) {
                    assert forall|j: int|
                        0 <= j < self.nodes@.len() implies node_pol_basic(
                        #[trigger] self.nodes@[j],
                    ) by {
                        if j < t0.len() {
                            assert(self.nodes@[j] == t0[j]);
                        }
                    }
                }
                }
            },
            Template::Draw { handle, steps, content } => {
                self.nodes.push(
                    Node::new(NodePhase::Render {
                            handle: *handle,
                            steps: crate::policy::copy_steps(steps),
                        }),
                );
                proof {
                    lemma_append_leaf(t0, self.nodes@);
                if pols_basic(t0) && crate::policy::template_wf(*tpl) {
                    assert forall|j: int|
                        0 <= j < self.nodes@.len() implies node_pol_basic(
                        #[trigger] self.nodes@[j],
                    ) by {
                        if j < t0.len() {
                            assert(self.nodes@[j] == t0[j]);
                        }
                    }
                }
                    assert forall|j: int, kk: int|
                        0 <= j < p && 0 <= kk < kids(self.nodes@, j).len() implies (#[trigger] kids(
                        self.nodes@,
                        j,
                    )[kk]) < p by {
                        assert(self.nodes@[j] == t0[j]);
                        assert(j < kids(t0, j)[kk] as int && (kids(t0, j)[kk] as int) < t0.len());
                    }
                }
                self.build_children(regs, p, content);
            },
        }
        p
    }

    /// Builds each template of `content` as one more child of the freshly
    /// appended node at `p`, in order.
    #[verifier::loop_isolation(false)]
    pub(crate) fn build_children(&mut self, regs: &mut Vec<Registry>, p: usize, content: &Vec<Template>)
        requires
            shape_ok(old(self).nodes@),
            old(self).nodes@.len() == p + 1,
            kids(old(self).nodes@, p as int).len() == 0,
            forall|j: int, kk: int|
                0 <= j < p && 0 <= kk < kids(old(self).nodes@, j).len() ==> (#[trigger] kids(
                    old(self).nodes@,
                    j,
                )[kk]) < p,
        ensures
            final(self).nodes@.len() >= old(self).nodes@.len(),
            shape_ok(final(self).nodes@),
            sub_end(final(self).nodes@, p as int) == final(self).nodes@.len(),
            forall|j: int| 0 <= j < p ==> final(self).nodes@[j] == old(self).nodes@[j],
            final(self).nodes@[p as int].phase == old(self).nodes@[p as int].phase,
            final(self).nodes@[p as int].area == old(self).nodes@[p as int].area,
            final(self).nodes@[p as int].layout_dirty == old(self).nodes@[p as int].layout_dirty,
            final(self).nodes@[p as int].render_dirty == old(self).nodes@[p as int].render_dirty,
            final(self).nodes@[p as int].measure_runs == old(self).nodes@[p as int].measure_runs,
            final(self).nodes@[p as int].draw_runs == old(self).nodes@[p as int].draw_runs,
            kids(final(self).nodes@, p as int).len() == content@.len(),
            forall|k: int|
                0 <= k < content@.len() ==> built_from(
                    final(self).nodes@,
                    kids(final(self).nodes@, p as int)[k] as int,
                    #[trigger] content@[k],
                ),
            forall|j: int|
                p < j < final(self).nodes@.len() ==> fresh_node_ok(
                    #[trigger] final(self).nodes@[j],
                ),
            final(regs)@.len() >= old(regs)@.len(),
            forall|q: int| 0 <= q < old(regs)@.len() ==> final(regs)@[q] == old(regs)@[q],
            forall|q: int|
                old(regs)@.len() <= q < final(regs)@.len() ==> (#[trigger] final(regs)@[q]).entries@.len() == 0,
            forall|j: int|
                p < j < final(self).nodes@.len() ==> reg_in_range(
                    (#[trigger] final(self).nodes@[j]).phase,
                    old(regs)@.len() as int,
                    final(regs)@.len() as int,
                ),
            crate::policy::templates_basic(content@) ==> final(regs)@ == old(regs)@,
            crate::policy::templates_basic(content@) ==> forall|j: int|
                p < j < final(self).nodes@.len() ==> !((#[trigger] final(self).nodes@[j]).phase
                    matches NodePhase::MeasurementCompose { .. }),
            pols_basic(old(self).nodes@) && crate::policy::templates_wf(content@) ==> pols_basic(
                final(self).nodes@,
            ),
        decreases *content,
    {
        let ghost base = self.nodes@;
        let ghost regs0 = regs@;
        let n = content.len();
        let mut k: usize = 0;
        while k < n
            invariant
                p < self.nodes@.len(),
                self.nodes@.len() >= base.len(),
                k <= n,
                shape_ok(self.nodes@),
                sub_end(self.nodes@, p as int) == self.nodes@.len(),
                forall|j: int| 0 <= j < p ==> self.nodes@[j] == base[j],
                self.nodes@[p as int].phase == base[p as int].phase,
                self.nodes@[p as int].area == base[p as int].area,
                self.nodes@[p as int].layout_dirty == base[p as int].layout_dirty,
                self.nodes@[p as int].render_dirty == base[p as int].render_dirty,
                self.nodes@[p as int].measure_runs == base[p as int].measure_runs,
                self.nodes@[p as int].draw_runs == base[p as int].draw_runs,
                kids(self.nodes@, p as int).len() == k,
                forall|kk: int|
                    0 <= kk < k ==> built_from(
                        self.nodes@,
                        kids(self.nodes@, p as int)[kk] as int,
                        #[trigger] content@[kk],
                    ),
                forall|j: int|
                    p < j < self.nodes@.len() ==> fresh_node_ok(#[trigger] self.nodes@[j]),
                regs@.len() >= regs0.len(),
                forall|q: int| 0 <= q < regs0.len() ==> regs@[q] == regs0[q],
                forall|q: int|
                    regs0.len() <= q < regs@.len() ==> (#[trigger] regs@[q]).entries@.len() == 0,
                forall|j: int|
                    p < j < self.nodes@.len() ==> reg_in_range(
                        (#[trigger] self.nodes@[j]).phase,
                        regs0.len() as int,
                        regs@.len() as int,
                    ),
                crate::policy::templates_basic(content@) ==> regs@ == regs0,
                crate::policy::templates_basic(content@) ==> forall|j: int|
                    p < j < self.nodes@.len() ==> !((#[trigger] self.nodes@[j]).phase
                        matches NodePhase::MeasurementCompose { .. }),
                pols_basic(base) && crate::policy::templates_wf(content@) ==> pols_basic(
                    self.nodes@,
                ),
            decreases n - k,
        {
            let ghost s = self.nodes@;
            let ghost regs_s = regs@;
            let c = self.build_node(regs, &content[k]);
            let ghost s2 = self.nodes@;
            let node = &mut self.nodes[p];
            node.children.push(c);
            proof {
                let u = self.nodes@;
                assert(kids(u, p as int) == kids(s2, p as int).push(c as usize));
                assert forall|j: int, kk: int|
                    0 <= j < p && 0 <= kk < kids(s2, j).len() implies (#[trigger] kids(s2, j)[kk])
                    < p by {
                    assert(s2[j] == base[j]);
                    assert(kids(base, j)[kk] < p);
                }
                lemma_same_links_into(s, s2, p as int);
                lemma_register_child(s2, u, p as int, c as int);
                assert forall|kk: int| 0 <= kk < k + 1 implies built_from(
                    u,
                    kids(u, p as int)[kk] as int,
                    #[trigger] content@[kk],
                ) by {
                    if kk < k {
                        let ch = kids(s, p as int)[kk] as int;
                        assert(kids(u, p as int)[kk] == kids(s, p as int)[kk]);
                        lemma_sub_end_bounds(s, ch);
                        lemma_built_from_frame(s, s2, ch, content@[kk]);
                        lemma_same_links_into(s, s2, ch);
                        lemma_built_from_frame(s2, u, ch, content@[kk]);
                    } else {
                        assert(kids(u, p as int)[kk] == c as usize);
                        lemma_sub_end_bounds(s2, c as int);
                        lemma_built_from_frame(s2, u, c as int, content@[kk]);
                    }
                }
                assert forall|j: int|
                    p < j < u.len() implies fresh_node_ok(#[trigger] u[j]) by {
                    if j < s2.len() && j != p {
                        assert(u[j] == s2[j]);
                    }
                }
                assert forall|j: int|
                    p < j < u.len() implies reg_in_range(
                        (#[trigger] u[j]).phase,
                        regs0.len() as int,
                        regs@.len() as int,
                    ) by {
                    if j < s.len() {
                        assert(u[j] == s[j]);
                        assert(reg_in_range(s[j].phase, regs0.len() as int, regs_s.len() as int));
                    } else {
                        assert(u[j] == s2[j]);
                        assert(reg_in_range(
                            s2[j].phase,
                            regs_s.len() as int,
                            regs@.len() as int,
                        ));
                    }
                }
                if crate::policy::templates_basic(content@) {
                    assert(crate::policy::template_basic(content@[k as int]));
                }
                if pols_basic(base) && crate::policy::templates_wf(content@) {
                    assert(crate::policy::template_wf(content@[k as int]));
                    assert forall|j: int| 0 <= j < u.len() implies node_pol_basic(
                        #[trigger] u[j],
                    ) by {
                        if j == p {
                            assert(u[j].phase == s2[j].phase);
                            assert(node_pol_basic(s2[j]));
                        } else if j < s2.len() {
                            assert(u[j] == s2[j]);
                        }
                    }
                }
                if crate::policy::templates_basic(content@) {
                    assert forall|j: int|
                        p < j < u.len() implies !((#[trigger] u[j]).phase
                            matches NodePhase::MeasurementCompose { .. }) by {
                        if j < s.len() {
                            assert(u[j] == s[j]);
                        } else if j < s2.len() {
                            assert(u[j] == s2[j]);
                        }
                    }
                }
            }
            k += 1;
        }
    }
}

/// After a subtree is grafted and its arena framed, the subtree end moves
/// along unchanged.
pub proof fn lemma_same_links_into(s: Seq<Node>, s2: Seq<Node>, ch: int)
    requires
        shape_ok(s),
        shape_ok(s2),
        0 <= ch < s.len(),
        s2.len() >= s.len(),
        forall|j: int| 0 <= j < s.len() ==> s2[j] == s[j],
    ensures
        sub_end(s2, ch) == sub_end(s, ch),
{
    lemma_sub_end_bounds(s, ch);
    lemma_sub_end_frame(s, s2, ch);
}


/// What one re-composition pass does at every template-paired node,
/// recursively: a differing behavior handle (kinds agreeing) means the
/// node now stores the template's behavior with both dirty flags raised;
/// a handle that matches — or a kind mismatch, which the pass ignores —
/// leaves the node's behavior and flags exactly as they were. Stored
/// children and declared content are paired in order, as far as both go.
pub open spec fn updated_from(a: Seq<Node>, b: Seq<Node>, i: int, tpl: Template) -> bool
    decreases tpl,
{
    &&& 0 <= i < a.len()
    &&& i < b.len()
    &&& (handle_differs(a[i].phase, tpl) ==> b[i].layout_dirty && b[i].render_dirty
        && behavior_from(b[i].phase, tpl))
    &&& (!handle_differs(a[i].phase, tpl) ==> b[i].phase == a[i].phase && b[i].layout_dirty
        == a[i].layout_dirty && b[i].render_dirty == a[i].render_dirty)
    &&& match tpl {
        Template::Layout { content, .. } => forall|k: int|
            0 <= k < kids(a, i).len() && k < content@.len() ==> updated_from(
                a,
                b,
                kids(a, i)[k] as int,
                #[trigger] content@[k],
            ),
        Template::SubcomposeLayout { .. } => true,
        Template::Draw { content, .. } => forall|k: int|
            0 <= k < kids(a, i).len() && k < content@.len() ==> updated_from(
                a,
                b,
                kids(a, i)[k] as int,
                #[trigger] content@[k],
            ),
    }
}

/// `updated_from` reads the updated arena only inside the subtree: it
/// survives changes elsewhere.
pub proof fn lemma_updated_from_frame(
    a: Seq<Node>,
    b1: Seq<Node>,
    b2: Seq<Node>,
    i: int,
    tpl: Template,
)
    requires
        shape_ok(a),
        updated_from(a, b1, i, tpl),
        sub_end(a, i) <= b2.len(),
        forall|j: int| i <= j < sub_end(a, i) ==> b2[j] == b1[j],
    ensures
        updated_from(a, b2, i, tpl),
    decreases tpl,
{
    lemma_sub_end_bounds(a, i);
    assert(b2[i] == b1[i]);
    match tpl {
        Template::Layout { content, .. } => {
            assert forall|k: int|
                0 <= k < kids(a, i).len() && k < content@.len() implies updated_from(
                a,
                b2,
                kids(a, i)[k] as int,
                #[trigger] content@[k],
            ) by {
                let c = kids(a, i)[k] as int;
                lemma_sub_end_bounds(a, c);
                lemma_child_segment(a, i, k);
                assert forall|j: int|
                    c <= j < sub_end(a, c) implies b2[j] == b1[j] by {
                    assert(i <= j < sub_end(a, i));
                }
                lemma_updated_from_frame(a, b1, b2, c, content@[k]);
            }
        },
        Template::SubcomposeLayout { .. } => {},
        Template::Draw { content, .. } => {
            assert forall|k: int|
                0 <= k < kids(a, i).len() && k < content@.len() implies updated_from(
                a,
                b2,
                kids(a, i)[k] as int,
                #[trigger] content@[k],
            ) by {
                let c = kids(a, i)[k] as int;
                lemma_sub_end_bounds(a, c);
                lemma_child_segment(a, i, k);
                assert forall|j: int|
                    c <= j < sub_end(a, c) implies b2[j] == b1[j] by {
                    assert(i <= j < sub_end(a, i));
                }
                lemma_updated_from_frame(a, b1, b2, c, content@[k]);
            }
        },
    }
}


/// `updated_from` reads the starting arena only inside the subtree too.
pub proof fn lemma_updated_from_frame_start(
    a1: Seq<Node>,
    a2: Seq<Node>,
    b: Seq<Node>,
    i: int,
    tpl: Template,
)
    requires
        shape_ok(a1),
        updated_from(a1, b, i, tpl),
        i < a2.len(),
        sub_end(a1, i) <= a2.len(),
        forall|j: int| i <= j < sub_end(a1, i) ==> a2[j] == a1[j],
    ensures
        updated_from(a2, b, i, tpl),
    decreases tpl,
{
    lemma_sub_end_bounds(a1, i);
    assert(a2[i] == a1[i]);
    match tpl {
        Template::Layout { content, .. } => {
            assert forall|k: int|
                0 <= k < kids(a2, i).len() && k < content@.len() implies updated_from(
                a2,
                b,
                kids(a2, i)[k] as int,
                #[trigger] content@[k],
            ) by {
                let c = kids(a1, i)[k] as int;
                lemma_sub_end_bounds(a1, c);
                lemma_child_segment(a1, i, k);
                assert forall|j: int|
                    c <= j < sub_end(a1, c) implies a2[j] == a1[j] by {
                    assert(i <= j < sub_end(a1, i));
                }
                lemma_updated_from_frame_start(a1, a2, b, c, content@[k]);
            }
        },
        Template::SubcomposeLayout { .. } => {},
        Template::Draw { content, .. } => {
            assert forall|k: int|
                0 <= k < kids(a2, i).len() && k < content@.len() implies updated_from(
                a2,
                b,
                kids(a2, i)[k] as int,
                #[trigger] content@[k],
            ) by {
                let c = kids(a1, i)[k] as int;
                lemma_sub_end_bounds(a1, c);
                lemma_child_segment(a1, i, k);
                assert forall|j: int|
                    c <= j < sub_end(a1, c) implies a2[j] == a1[j] by {
                    assert(i <= j < sub_end(a1, i));
                }
                lemma_updated_from_frame_start(a1, a2, b, c, content@[k]);
            }
        },
    }
}


/// What one re-composition pass leaves in the stored behaviors, at every
/// template-paired node: a differing handle (kinds agreeing) means the
/// node now stores the template's behavior; a matching handle, or an
/// ignored kind mismatch, leaves the stored behavior as it was.
pub open spec fn refreshed_from(a: Seq<Node>, b: Seq<Node>, i: int, tpl: Template) -> bool
    decreases tpl,
{
    &&& 0 <= i < a.len()
    &&& i < b.len()
    &&& (handle_differs(a[i].phase, tpl) ==> behavior_from(b[i].phase, tpl))
    &&& (!handle_differs(a[i].phase, tpl) ==> b[i].phase == a[i].phase)
    &&& match tpl {
        Template::Layout { content, .. } => forall|k: int|
            0 <= k < kids(a, i).len() && k < content@.len() ==> refreshed_from(
                a,
                b,
                kids(a, i)[k] as int,
                #[trigger] content@[k],
            ),
        Template::SubcomposeLayout { .. } => true,
        Template::Draw { content, .. } => forall|k: int|
            0 <= k < kids(a, i).len() && k < content@.len() ==> refreshed_from(
                a,
                b,
                kids(a, i)[k] as int,
                #[trigger] content@[k],
            ),
    }
}

/// A full update pass refreshes the stored behaviors.
pub proof fn lemma_updated_implies_refreshed(a: Seq<Node>, b: Seq<Node>, i: int, tpl: Template)
    requires
        updated_from(a, b, i, tpl),
    ensures
        refreshed_from(a, b, i, tpl),
    decreases tpl,
{
    match tpl {
        Template::Layout { content, .. } => {
            assert forall|k: int|
                0 <= k < kids(a, i).len() && k < content@.len() implies refreshed_from(
                a,
                b,
                kids(a, i)[k] as int,
                #[trigger] content@[k],
            ) by {
                lemma_updated_implies_refreshed(a, b, kids(a, i)[k] as int, content@[k]);
            }
        },
        Template::SubcomposeLayout { .. } => {},
        Template::Draw { content, .. } => {
            assert forall|k: int|
                0 <= k < kids(a, i).len() && k < content@.len() implies refreshed_from(
                a,
                b,
                kids(a, i)[k] as int,
                #[trigger] content@[k],
            ) by {
                lemma_updated_implies_refreshed(a, b, kids(a, i)[k] as int, content@[k]);
            }
        },
    }
}

/// `refreshed_from` reads the refreshed arena only through its phases:
/// it survives any change that keeps them.
pub proof fn lemma_refreshed_from_phases(
    a: Seq<Node>,
    b1: Seq<Node>,
    b2: Seq<Node>,
    i: int,
    tpl: Template,
)
    requires
        shape_ok(a),
        refreshed_from(a, b1, i, tpl),
        sub_end(a, i) <= b2.len(),
        forall|j: int| i <= j < sub_end(a, i) ==> (#[trigger] b2[j]).phase == b1[j].phase,
    ensures
        refreshed_from(a, b2, i, tpl),
    decreases tpl,
{
    lemma_sub_end_bounds(a, i);
    assert(b2[i].phase == b1[i].phase);
    match tpl {
        Template::Layout { content, .. } => {
            assert forall|k: int|
                0 <= k < kids(a, i).len() && k < content@.len() implies refreshed_from(
                a,
                b2,
                kids(a, i)[k] as int,
                #[trigger] content@[k],
            ) by {
                let c = kids(a, i)[k] as int;
                lemma_sub_end_bounds(a, c);
                lemma_child_segment(a, i, k);
                assert forall|j: int|
                    c <= j < sub_end(a, c) implies (#[trigger] b2[j]).phase == b1[j].phase by {
                    assert(i <= j < sub_end(a, i));
                }
                lemma_refreshed_from_phases(a, b1, b2, c, content@[k]);
            }
        },
        Template::SubcomposeLayout { .. } => {},
        Template::Draw { content, .. } => {
            assert forall|k: int|
                0 <= k < kids(a, i).len() && k < content@.len() implies refreshed_from(
                a,
                b2,
                kids(a, i)[k] as int,
                #[trigger] content@[k],
            ) by {
                let c = kids(a, i)[k] as int;
                lemma_sub_end_bounds(a, c);
                lemma_child_segment(a, i, k);
                assert forall|j: int|
                    c <= j < sub_end(a, c) implies (#[trigger] b2[j]).phase == b1[j].phase by {
                    assert(i <= j < sub_end(a, i));
                }
                lemma_refreshed_from_phases(a, b1, b2, c, content@[k]);
            }
        },
    }
}

/// What an update pass may change in a node: behavior and dirty flags.
/// Structure, placement and counters stay; dirty flags are only raised.
pub open spec fn update_keeps(a: Node, b: Node) -> bool {
    &&& b.children@ == a.children@
    &&& b.area == a.area
    &&& b.measure_runs == a.measure_runs
    &&& b.draw_runs == a.draw_runs
    &&& phase_like(b.phase, a.phase)
    &&& (a.layout_dirty ==> b.layout_dirty)
    &&& (a.render_dirty ==> b.render_dirty)
}

/// The declared behavior handle differs from the stored one, kinds
/// agreeing.
pub open spec fn handle_differs(ph: NodePhase, tpl: Template) -> bool {
    match (ph, tpl) {
        (NodePhase::Measurement { handle: h, .. }, Template::Layout { handle: th, .. }) => h != th,
        (
            NodePhase::MeasurementCompose { handle: h, .. },
            Template::SubcomposeLayout { handle: th, .. },
        ) => h != th,
        (NodePhase::Render { handle: h, .. }, Template::Draw { handle: th, .. }) => h != th,
        _ => false,
    }
}

/// The node's stored behavior is the template's: same handle, same
/// policy or steps.
pub open spec fn behavior_from(ph: NodePhase, tpl: Template) -> bool {
    match (ph, tpl) {
        (
            NodePhase::Measurement { handle: h, policy: p },
            Template::Layout { handle: th, policy: tp, .. },
        ) => h == th && p == tp,
        (
            NodePhase::MeasurementCompose { handle: h, policy: p, .. },
            Template::SubcomposeLayout { handle: th, policy: tp },
        ) => h == th && ceq(p, tp),
        (
            NodePhase::Render { handle: h, steps: sp },
            Template::Draw { handle: th, steps: ts, .. },
        ) => h == th && sp@ == ts@,
        _ => false,
    }
}

/// Same phase kind; a subcompose node also keeps its registry.
pub open spec fn phase_like(a: NodePhase, b: NodePhase) -> bool {
    match (a, b) {
        (NodePhase::Virtual, NodePhase::Virtual) => true,
        (NodePhase::Measurement { .. }, NodePhase::Measurement { .. }) => true,
        (
            NodePhase::MeasurementCompose { registry: r1, .. },
            NodePhase::MeasurementCompose { registry: r2, .. },
        ) => r1 == r2,
        (NodePhase::Render { .. }, NodePhase::Render { .. }) => true,
        _ => false,
    }
}

impl Tree {
    /// Re-declares the node at `id` from the template, as one
    /// re-composition pass does: a behavior handle equal to the stored one
    /// changes nothing; a different one replaces the behavior and dirties
    /// the node. Content is walked the same way, child by child. A
    /// template whose handles all match the stored ones is a no-op.
    #[verifier::loop_isolation(false)]
    pub fn update_node(&mut self, id: usize, tpl: &Template)
        requires
            shape_ok(old(self).nodes@),
            id < old(self).nodes@.len(),
        ensures
            pols_basic(old(self).nodes@) && crate::policy::template_wf(*tpl) ==> pols_basic(
                final(self).nodes@,
            ),
            same_links(old(self).nodes@, final(self).nodes@),
            shape_ok(final(self).nodes@),
            forall|j: int|
                0 <= j < old(self).nodes@.len() && !(id <= j < sub_end(
                    old(self).nodes@,
                    id as int,
                )) ==> final(self).nodes@[j] == old(self).nodes@[j],
            forall|j: int|
                id <= j < sub_end(old(self).nodes@, id as int) ==> update_keeps(
                    old(self).nodes@[j],
                    #[trigger] final(self).nodes@[j],
                ),
            handles_match(old(self).nodes@, id as int, *tpl) ==> final(self).nodes@ == old(
                self,
            ).nodes@,
            handle_differs(old(self).nodes@[id as int].phase, *tpl) ==> final(self).nodes@[id as int].layout_dirty && final(self).nodes@[id as int].render_dirty
                && behavior_from(final(self).nodes@[id as int].phase, *tpl),
            updated_from(old(self).nodes@, final(self).nodes@, id as int, *tpl),
        decreases *tpl,
    {
        let ghost t0 = self.nodes@;
        proof {
            lemma_sub_end_bounds(t0, id as int);
            assert(node_spans_ok(t0, id as int));
        }
        match tpl {
            Template::Layout { handle, policy, content } => {
                let differs = match &self.nodes[id].phase {
                    NodePhase::Measurement { handle: h, .. } => *h != *handle,
                    _ => false,
                };
                if differs {
                    let node = &mut self.nodes[id];
                    node.phase = NodePhase::Measurement { handle: *handle, policy: *policy };
                    node.layout_dirty = true;
                    node.render_dirty = true;
                }
                proof {
                    assert(same_links(t0, self.nodes@));
                    lemma_same_links_shape(t0, self.nodes@);
                    if pols_basic(t0) && crate::policy::templates_wf(content@) {
                        assert forall|j: int|
                            0 <= j < self.nodes@.len() implies node_pol_basic(
                            #[trigger] self.nodes@[j],
                        ) by {
                            if j != id {
                                assert(self.nodes@[j] == t0[j]);
                            }
                        }
                    }
                }
                self.update_children(id, content, Ghost(t0));
            },
            Template::SubcomposeLayout { handle, policy } => {
                let differs = match &self.nodes[id].phase {
                    NodePhase::MeasurementCompose { handle: h, .. } => *h != *handle,
                    _ => false,
                };
                if differs {
                    let r = match &self.nodes[id].phase {
                        NodePhase::MeasurementCompose { registry, .. } => *registry,
                        _ => 0,
                    };
                    let node = &mut self.nodes[id];
                    node.phase = NodePhase::MeasurementCompose {
                        handle: *handle,
                        policy: crate::policy::clone_compose_policy(policy),
                        registry: r,
                    };
                    node.layout_dirty = true;
                    node.render_dirty = true;
                }
                proof {
                    if handles_match(t0, id as int, *tpl) {
                        assert(self.nodes@ =~= t0);
                    }
                    lemma_same_links_shape(t0, self.nodes@);
                    if pols_basic(t0) && crate::policy::template_wf(*tpl) {
                        assert(*tpl == (Template::SubcomposeLayout {
                            handle: *handle,
                            policy: *policy,
                        }));
                        assert(crate::policy::compose_policy_wf(*policy));
                        assert(crate::policy::policy_items_basic(*policy)) by {
                            match *policy {
                                ComposePolicy::LazyColumn { .. } => {},
                                ComposePolicy::TwoPass { .. } => {},
                            }
                        }
                        assert forall|j: int|
                            0 <= j < self.nodes@.len() implies node_pol_basic(
                            #[trigger] self.nodes@[j],
                        ) by {
                            if j != id {
                                assert(self.nodes@[j] == t0[j]);
                            } else {
                                match self.nodes@[j].phase {
                                    NodePhase::MeasurementCompose { policy: sp, .. } => {
                                        if self.nodes@[j] != t0[j] {
                                            crate::policy::lemma_ceq_items_basic(sp, *policy);
                                        } else {
                                            assert(node_pol_basic(t0[j]));
                                        }
                                    },
                                    _ => {},
                                }
                            }
                        }
                    }
                }
            },
            Template::Draw { handle, steps, content } => {
                let differs = match &self.nodes[id].phase {
                    NodePhase::Render { handle: h, .. } => *h != *handle,
                    _ => false,
                };
                if differs {
                    let node = &mut self.nodes[id];
                    node.phase = NodePhase::Render {
                        handle: *handle,
                        steps: crate::policy::copy_steps(steps),
                    };
                    node.layout_dirty = true;
                    node.render_dirty = true;
                }
                proof {
                    assert(same_links(t0, self.nodes@));
                    lemma_same_links_shape(t0, self.nodes@);
                    if pols_basic(t0) && crate::policy::templates_wf(content@) {
                        assert forall|j: int|
                            0 <= j < self.nodes@.len() implies node_pol_basic(
                            #[trigger] self.nodes@[j],
                        ) by {
                            if j != id {
                                assert(self.nodes@[j] == t0[j]);
                            }
                        }
                    }
                }
                self.update_children(id, content, Ghost(t0));
            },
        }
    }

    /// Walks the declared content against the stored children, pairwise,
    /// updating each; extra children or extra templates are left alone.
    #[verifier::loop_isolation(false)]
    pub(crate) fn update_children(&mut self, id: usize, content: &Vec<Template>, t0g: Ghost<Seq<Node>>)
        requires
            shape_ok(old(self).nodes@),
            id < old(self).nodes@.len(),
            pols_basic(t0g@) && crate::policy::templates_wf(content@) ==> pols_basic(
                old(self).nodes@,
            ),
            t0g@.len() == old(self).nodes@.len(),
            same_links(t0g@, old(self).nodes@),
            shape_ok(t0g@),
            forall|j: int|
                0 <= j < t0g@.len() && j != id ==> old(self).nodes@[j] == t0g@[j],
            update_keeps(t0g@[id as int], old(self).nodes@[id as int]),
        ensures
            same_links(t0g@, final(self).nodes@),
            shape_ok(final(self).nodes@),
            forall|j: int|
                0 <= j < t0g@.len() && !(id <= j < sub_end(t0g@, id as int)) ==> final(self).nodes@[j] == t0g@[j],
            forall|j: int|
                id <= j < sub_end(t0g@, id as int) ==> update_keeps(
                    t0g@[j],
                    #[trigger] final(self).nodes@[j],
                ),
            final(self).nodes@[id as int] == old(self).nodes@[id as int],
            pols_basic(t0g@) && crate::policy::templates_wf(content@) ==> pols_basic(
                final(self).nodes@,
            ),
            (old(self).nodes@ == t0g@ && kids(t0g@, id as int).len() == content@.len() && (forall|k: int|
                0 <= k < content@.len() ==> handles_match(
                    t0g@,
                    kids(t0g@, id as int)[k] as int,
                    #[trigger] content@[k],
                ))) ==> final(self).nodes@ == t0g@,
            forall|k: int|
                0 <= k < kids(t0g@, id as int).len() && k < content@.len() ==> updated_from(
                    t0g@,
                    final(self).nodes@,
                    kids(t0g@, id as int)[k] as int,
                    #[trigger] content@[k],
                ),
        decreases *content,
    {
        let ghost t0 = t0g@;
        proof {
            lemma_sub_end_bounds(t0, id as int);
            assert(node_spans_ok(t0, id as int));
            lemma_same_links_shape(t0, self.nodes@);
        }
        let n = self.nodes[id].children.len();
        let m = content.len();
        let lim = if n < m {
            n
        } else {
            m
        };
        let mut k: usize = 0;
        while k < lim
            invariant
                k <= lim,
                self.nodes@.len() == t0.len(),
                same_links(t0, self.nodes@),
                shape_ok(self.nodes@),
                forall|j: int|
                    0 <= j < t0.len() && j != id && !(id + 1 <= j < frontier(t0, id as int, k as int))
                        ==> self.nodes@[j] == t0[j],
                self.nodes@[id as int] == old(self).nodes@[id as int],
                forall|j: int|
                    id + 1 <= j < frontier(t0, id as int, k as int) ==> update_keeps(
                        t0[j],
                        #[trigger] self.nodes@[j],
                    ),
                frontier(t0, id as int, k as int) <= sub_end(t0, id as int),
                (old(self).nodes@ == t0 && kids(t0, id as int).len() == content@.len() && (forall|kk: int|
                    0 <= kk < content@.len() ==> handles_match(
                        t0,
                        kids(t0, id as int)[kk] as int,
                        #[trigger] content@[kk],
                    ))) ==> self.nodes@ == t0,
                pols_basic(t0) && crate::policy::templates_wf(content@) ==> pols_basic(
                    self.nodes@,
                ),
                forall|kk: int|
                    0 <= kk < k ==> updated_from(
                        t0,
                        self.nodes@,
                        kids(t0, id as int)[kk] as int,
                        #[trigger] content@[kk],
                    ),
            decreases lim - k,
        {
            let ghost s = self.nodes@;
            proof {
                lemma_same_links_shape(t0, s);
            }
            let c = self.nodes[id].children[k];
            proof {
                assert(c == kids(t0, id as int)[k as int]);
                lemma_sub_end_bounds(t0, c as int);
                lemma_child_segment(t0, id as int, k as int);
            }
            self.update_node(c, &content[k]);
            proof {
                assert(sub_end(s, c as int) == sub_end(t0, c as int));
                assert forall|kk: int|
                    0 <= kk < k + 1 implies updated_from(
                    t0,
                    self.nodes@,
                    kids(t0, id as int)[kk] as int,
                    #[trigger] content@[kk],
                ) by {
                    let ck = kids(t0, id as int)[kk] as int;
                    if kk < k {
                        assert(ck == frontier(t0, id as int, kk));
                        crate::tree::lemma_frontier_step(t0, id as int, kk);
                        crate::tree::lemma_frontier_mono(t0, id as int, kk + 1, k as int);
                        assert((ck as int) < c as int);
                        lemma_sub_end_bounds(t0, ck);
                        lemma_child_segment(t0, id as int, kk);
                        assert(updated_from(t0, s, ck, content@[kk]));
                        assert forall|j: int|
                            ck <= j < sub_end(t0, ck) implies self.nodes@[j] == s[j] by {
                            crate::tree::lemma_frontier_mono(t0, id as int, kk + 1, k as int);
                            assert(j < frontier(t0, id as int, k as int));
                            assert(!(c as int <= j < sub_end(s, c as int)));
                        }
                        lemma_updated_from_frame(t0, s, self.nodes@, ck, content@[kk]);
                    } else {
                        assert(updated_from(s, self.nodes@, c as int, content@[kk]));
                        assert forall|j: int|
                            c as int <= j < sub_end(t0, c as int) implies s[j] == t0[j] by {
                            assert(!(id + 1 <= j < frontier(t0, id as int, k as int)));
                            assert(j != id);
                        }
                        lemma_updated_from_frame_start(s, t0, self.nodes@, c as int, content@[kk]);
                    }
                }
                if k + 1 < kids(t0, id as int).len() {
                    assert(kids(t0, id as int)[k + 1] == sub_end(
                        t0,
                        kids(t0, id as int)[k as int] as int,
                    ));
                } else {
                    assert(sub_end(t0, id as int) == sub_end(
                        t0,
                        kids(t0, id as int)[kids(t0, id as int).len() - 1] as int,
                    ));
                }
                assert forall|j: int|
                    id + 1 <= j < frontier(t0, id as int, k + 1) implies update_keeps(
                    t0[j],
                    #[trigger] self.nodes@[j],
                ) by {
                    if j < frontier(t0, id as int, k as int) {
                        assert(self.nodes@[j] == s[j]);
                    } else if c as int <= j < sub_end(t0, c as int) {
                        assert(update_keeps(s[j], self.nodes@[j]));
                        assert(s[j] == t0[j]);
                    }
                }
                if old(self).nodes@ == t0 && kids(t0, id as int).len() == content@.len() && (forall|kk: int|
                    0 <= kk < content@.len() ==> handles_match(
                        t0,
                        kids(t0, id as int)[kk] as int,
                        #[trigger] content@[kk],
                    )) {
                    assert(s == t0);
                    assert(handles_match(t0, c as int, content@[k as int]));
                    assert(self.nodes@ == t0);
                }
            }
            k += 1;
        }
        proof {
            assert forall|j: int|
                id <= j < sub_end(t0, id as int) implies update_keeps(
                t0[j],
                #[trigger] self.nodes@[j],
            ) by {
                if j == id {
                } else if id + 1 <= j < frontier(t0, id as int, lim as int) {
                } else {
                    assert(self.nodes@[j] == t0[j]);
                    assert(update_keeps(t0[j], t0[j]));
                }
            }
        }
    }
}

} // verus!
