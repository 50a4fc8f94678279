//! The render pass.
//!
//! One depth-first pass over the tree, painting into a command log. A
//! dirty draw node runs its steps first; a per-invocation flag, defaulted
//! to drawing children automatically, lets the steps either leave it set,
//! or clear it and draw the content explicitly at a chosen point. The flag
//! resets to its default for every nested invocation. Subcompose nodes are
//! never skipped by render memoization: drawing is always forwarded into
//! their registries, which track their own dirtiness per instance.

use vstd::prelude::*;

use crate::compose::{reg_in_range, tree_basic, Registry};
use crate::geometry::Rect;
use crate::measure::{instance_wf, registry_wf, regs_ok, regs_wf, spec_bump};
use crate::policy::{
    content_draw_count, final_content_flag, spec_emit, spec_emits, DrawCmd, DrawStep, Paint,
};
use crate::tree::{
    frontier, kids, lemma_child_segment, lemma_sub_end_bounds, lemma_same_links_shape,
    node_spans_ok, same_links, shape_ok, sub_end, Node, NodePhase, Tree,
};

verus! {

broadcast use vstd::std_specs::vec::group_vec_axioms;

/// What a render pass may change in a node: only its render flag and its
/// draw counter.
pub open spec fn render_keeps(a: Node, b: Node) -> bool {
    &&& b.children@ == a.children@
    &&& b.phase == a.phase
    &&& b.area == a.area
    &&& b.layout_dirty == a.layout_dirty
    &&& b.measure_runs == a.measure_runs
}

/// A step sequence that disables automatic content drawing and never
/// draws it explicitly.
pub open spec fn suppresses_content(steps: Seq<DrawStep>) -> bool {
    content_draw_count(steps) == 0 && !final_content_flag(steps)
}

/// Every direct child ends the pass with a clean render flag: each was
/// painted during it or was already clean, so a later repaint of the node
/// alone paints none of them again.
pub open spec fn children_render_clean(post: Seq<Node>, cs: Seq<usize>) -> bool {
    forall|k: int| 0 <= k < cs.len() ==> !(#[trigger] post[cs[k] as int]).render_dirty
}

/// Each direct draw-node child was painted exactly once if it was dirty,
/// and not at all otherwise.
pub open spec fn children_drawn_once(pre: Seq<Node>, post: Seq<Node>, cs: Seq<usize>) -> bool {
    forall|k: int|
        0 <= k < cs.len() ==> ((#[trigger] pre[cs[k] as int]).phase matches NodePhase::Render {
            ..
        } ==> post[cs[k] as int].draw_runs == (if pre[cs[k] as int].render_dirty {
            spec_bump(pre[cs[k] as int].draw_runs)
        } else {
            pre[cs[k] as int].draw_runs
        }))
}

/// What forwarding a draw pass into a registry accomplishes: the slot
/// table is preserved — same count, keys, node identities — and every
/// instance's top-level children end the pass with clean render flags:
/// each was either painted now or already clean.
pub open spec fn registry_forwarded(a: Registry, b: Registry) -> bool {
    &&& b.entries@.len() == a.entries@.len()
    &&& forall|s: int|
        0 <= s < a.entries@.len() ==> (#[trigger] b.entries@[s]).key == a.entries@[s].key
            && same_links(
            a.entries@[s].instance.tree.nodes@,
            b.entries@[s].instance.tree.nodes@,
        )
    &&& forall|s: int, k: int|
        0 <= s < b.entries@.len() && 0 <= k < kids(b.entries@[s].instance.tree.nodes@, 0).len()
            ==> !(#[trigger] b.entries@[s].instance.tree.nodes@[kids(
            b.entries@[s].instance.tree.nodes@,
            0,
        )[k] as int]).render_dirty
}

/// The command recorded for one paint over a node area.
pub fn emit_cmd(p: Paint, area: Rect) -> (r: DrawCmd)
    ensures
        r == spec_emit(p, area),
{
    match p {
        Paint::Stroke { width, .. } => {
            let w: i64 = if width < 0 {
                0
            } else {
                width
            };
            DrawCmd {
                paint: p,
                area: Rect {
                    origin: crate::geometry::Point {
                        x: crate::num::sat_add(area.origin.x, w / 2),
                        y: crate::num::sat_add(area.origin.y, w / 2),
                    },
                    size: crate::geometry::Size {
                        width: crate::num::sat_add(area.size.width, -w),
                        height: crate::num::sat_add(area.size.height, -w),
                    },
                },
            }
        },
        _ => DrawCmd { paint: p, area },
    }
}

impl Tree {
    /// Paints the node at `id` into the log.
    ///
    /// A subcompose node always forwards into its registry. Any other node
    /// whose render flag is clean is skipped entirely. A dirty draw node
    /// runs its steps, recording its own paints over its area, and draws
    /// its children as the steps direct; other dirty nodes draw their
    /// children and nothing of their own. The render flag is cleared.
    #[verifier::loop_isolation(false)]
    pub fn render_node(&mut self, regs: &mut Vec<Registry>, log: &mut Vec<DrawCmd>, id: usize)
        requires
            shape_ok(old(self).nodes@),
            id < old(self).nodes@.len(),
            regs_ok(old(self).nodes@, old(regs)@),
            regs_wf(old(regs)@),
        ensures
            final(self).nodes@.len() == old(self).nodes@.len(),
            same_links(old(self).nodes@, final(self).nodes@),
            shape_ok(final(self).nodes@),
            forall|j: int|
                0 <= j < old(self).nodes@.len() && !(id <= j < sub_end(
                    old(self).nodes@,
                    id as int,
                )) ==> final(self).nodes@[j] == old(self).nodes@[j],
            forall|j: int|
                id <= j < sub_end(old(self).nodes@, id as int) ==> render_keeps(
                    old(self).nodes@[j],
                    #[trigger] final(self).nodes@[j],
                ),
            !final(self).nodes@[id as int].render_dirty,
            final(regs)@.len() == old(regs)@.len(),
            regs_wf(final(regs)@),
            regs_ok(final(self).nodes@, final(regs)@),
            old(log)@.is_prefix_of(final(log)@),
            (!(old(self).nodes@[id as int].phase matches NodePhase::MeasurementCompose { .. })
                && !old(self).nodes@[id as int].render_dirty) ==> final(self).nodes@ == old(
                self,
            ).nodes@ && final(log)@ == old(log)@ && final(regs)@ == old(regs)@,
            old(self).nodes@[id as int].phase matches NodePhase::Render { steps, .. }
                ==> old(self).nodes@[id as int].render_dirty ==> {
                &&& final(self).nodes@[id as int].draw_runs == spec_bump(
                    old(self).nodes@[id as int].draw_runs,
                )
                &&& (suppresses_content(steps@) ==> final(log)@ == old(log)@ + spec_emits(
                    steps@,
                    old(self).nodes@[id as int].area,
                ) && (forall|j: int|
                    id < j < sub_end(old(self).nodes@, id as int) ==> final(self).nodes@[j] == old(
                        self,
                    ).nodes@[j]) && final(regs)@ == old(regs)@)
                &&& ((content_draw_count(steps@) >= 1 || final_content_flag(steps@))
                    ==> children_drawn_once(
                    old(self).nodes@,
                    final(self).nodes@,
                    kids(old(self).nodes@, id as int),
                ) && children_render_clean(
                    final(self).nodes@,
                    kids(old(self).nodes@, id as int),
                ))
                &&& ((content_draw_count(steps@) == 0 && final_content_flag(steps@)) ==> exists|
                    ce: Seq<DrawCmd>,
                |
                    #![trigger old(log)@ + spec_emits(steps@, old(self).nodes@[id as int].area) + ce]
                    final(log)@ == old(log)@ + spec_emits(
                        steps@,
                        old(self).nodes@[id as int].area,
                    ) + ce)
                &&& (content_draw_count(steps@) >= 1 ==> exists|ce: Seq<DrawCmd>|
                    #![trigger old(log)@ + spec_emits(
                        crate::policy::steps_before_content(steps@),
                        old(self).nodes@[id as int].area,
                    ) + ce]
                    final(log)@ == old(log)@ + spec_emits(
                        crate::policy::steps_before_content(steps@),
                        old(self).nodes@[id as int].area,
                    ) + ce)
                &&& ((content_draw_count(steps@) == 1 && !final_content_flag(steps@)) ==> exists|
                    ce: Seq<DrawCmd>,
                |
                    #![trigger old(log)@ + spec_emits(
                        crate::policy::steps_before_content(steps@),
                        old(self).nodes@[id as int].area,
                    ) + ce + spec_emits(
                        crate::policy::steps_after_content(steps@),
                        old(self).nodes@[id as int].area,
                    )]
                    final(log)@ == old(log)@ + spec_emits(
                        crate::policy::steps_before_content(steps@),
                        old(self).nodes@[id as int].area,
                    ) + ce + spec_emits(
                        crate::policy::steps_after_content(steps@),
                        old(self).nodes@[id as int].area,
                    ))
            },
            ((old(self).nodes@[id as int].phase matches NodePhase::Virtual || old(
                self,
            ).nodes@[id as int].phase matches NodePhase::Measurement { .. }) && old(
                self,
            ).nodes@[id as int].render_dirty) ==> children_drawn_once(
                old(self).nodes@,
                final(self).nodes@,
                kids(old(self).nodes@, id as int),
            ) && children_render_clean(final(self).nodes@, kids(old(self).nodes@, id as int)),
            old(self).nodes@[id as int].phase matches NodePhase::MeasurementCompose {
                registry,
                ..
            } ==> registry_forwarded(
                old(regs)@[registry as int],
                final(regs)@[registry as int],
            ) && (forall|q: int|
                0 <= q < old(regs)@.len() && q != registry ==> final(regs)@[q] == old(regs)@[q]),
        decreases regs@.len(), self.nodes@.len() - id, 1int,
    {
        let ghost pre = self.nodes@;
        let ghost regs0 = regs@;
        let ghost log0 = log@;
        proof {
            lemma_sub_end_bounds(pre, id as int);
            assert(node_spans_ok(pre, id as int));
        }
        let rix_opt: Option<usize> = match &self.nodes[id].phase {
            NodePhase::MeasurementCompose { registry, .. } => Some(*registry),
            _ => None,
        };
        if let Some(rix) = rix_opt {
            proof {
                assert(reg_in_range(pre[id as int].phase, 0, regs0.len() as int));
            }
            render_registry(&mut regs[rix], log);
            let node = &mut self.nodes[id];
            node.render_dirty = false;
            proof {
                let post = self.nodes@;
                assert(same_links(pre, post));
                lemma_same_links_shape(pre, post);
                assert(regs_ok(post, regs@)) by {
                    assert forall|j: int|
                        0 <= j < post.len() implies reg_in_range(
                        (#[trigger] post[j]).phase,
                        0,
                        regs@.len() as int,
                    ) by {
                        assert(post[j].phase == pre[j].phase);
                        assert(reg_in_range(pre[j].phase, 0, regs0.len() as int));
                    }
                }
                assert(regs_wf(regs@)) by {
                    assert forall|q: int| 0 <= q < regs@.len() implies registry_wf(
                        #[trigger] regs@[q],
                    ) by {
                        if q != rix {
                            assert(regs@[q] == regs0[q]);
                        }
                    }
                }
            }
            return ;
        }
        if !self.nodes[id].render_dirty {
            return ;
        }
        let area = self.nodes[id].area;
        let is_render = matches!(&self.nodes[id].phase, NodePhase::Render { .. });
        let ghost steps = match pre[id as int].phase {
            NodePhase::Render { steps, .. } => steps@,
            _ => Seq::empty(),
        };
        let mut flag = true;
        let ghost mut fc_seen: bool = false;
        let ghost mut log_fc: Seq<DrawCmd> = log0;
        let ghost mut k_fc: int = 0;
        let ghost mut ce0: Seq<DrawCmd> = Seq::empty();
        if is_render {
            let nsteps = match &self.nodes[id].phase {
                NodePhase::Render { steps, .. } => steps.len(),
                _ => 0,
            };
            let mut k: usize = 0;
            while k < nsteps
                invariant
                    k <= nsteps,
                    nsteps == steps.len(),
                    self.nodes@.len() == pre.len(),
                    same_links(pre, self.nodes@),
                    shape_ok(self.nodes@),
                    self.nodes@[id as int] == pre[id as int],
                    forall|j: int|
                        0 <= j < pre.len() && !(id < j < sub_end(pre, id as int))
                            ==> self.nodes@[j] == pre[j],
                    forall|j: int|
                        id < j < sub_end(pre, id as int) ==> render_keeps(
                            pre[j],
                            #[trigger] self.nodes@[j],
                        ),
                    regs@.len() == regs0.len(),
                    regs_wf(regs@),
                    regs_ok(self.nodes@, regs@),
                    log0.is_prefix_of(log@),
                    flag == final_content_flag(steps.subrange(0, k as int)),
                    content_draw_count(steps.subrange(0, k as int)) == 0 ==> log@ == log0
                        + spec_emits(steps.subrange(0, k as int), pre[id as int].area) && (forall|
                        j: int,
                    |
                        0 <= j < pre.len() ==> self.nodes@[j] == pre[j]) && regs@ == regs0,
                    content_draw_count(steps.subrange(0, k as int)) >= 1 ==> children_drawn_once(
                        pre,
                        self.nodes@,
                        kids(pre, id as int),
                    ),
                    content_draw_count(steps.subrange(0, k as int)) >= 1 ==> (fc_seen && log_fc
                        == log0 + spec_emits(
                        crate::policy::steps_before_content(steps),
                        pre[id as int].area,
                    ) && log_fc.is_prefix_of(log@)),
                    content_draw_count(steps.subrange(0, k as int)) == 1 ==> (0 <= k_fc < k
                        && steps[k_fc] is DrawContent && content_draw_count(
                        steps.subrange(0, k_fc),
                    ) == 0 && log@ == log_fc + ce0 + spec_emits(
                        steps.subrange(k_fc + 1, k as int),
                        pre[id as int].area,
                    )),
                    content_draw_count(steps.subrange(0, k as int)) >= 1 ==> forall|kk: int|
                        0 <= kk < kids(pre, id as int).len() ==> !(#[trigger] self.nodes@[kids(
                            pre,
                            id as int,
                        )[kk] as int]).render_dirty,
                decreases nsteps - k,
            {
                let ghost log_top = log@;
                let step = match &self.nodes[id].phase {
                    NodePhase::Render { steps, .. } => steps[k],
                    _ => DrawStep::DrawContent,
                };
                proof {
                    assert(step == steps[k as int]);
                    assert(steps.subrange(0, k + 1).drop_last() =~= steps.subrange(0, k as int));
                    assert(steps.subrange(0, k + 1).last() == steps[k as int]);
                }
                match step {
                    DrawStep::Emit(p) => {
                        log.push(emit_cmd(p, area));
                        proof {
                            if content_draw_count(steps.subrange(0, k as int)) == 0 {
                                assert(spec_emits(steps.subrange(0, k + 1), pre[id as int].area)
                                    =~= spec_emits(steps.subrange(0, k as int), pre[id as int].area)
                                    + seq![spec_emit(p, pre[id as int].area)]);
                                assert(log@ =~= log0 + spec_emits(
                                    steps.subrange(0, k + 1),
                                    pre[id as int].area,
                                ));
                            }
                            if content_draw_count(steps.subrange(0, k as int)) == 1 {
                                assert(steps.subrange(k_fc + 1, k + 1).drop_last()
                                    =~= steps.subrange(k_fc + 1, k as int));
                                assert(steps.subrange(k_fc + 1, k + 1).last() == steps[k as int]);
                                assert(spec_emits(steps.subrange(k_fc + 1, k + 1), pre[id as int].area)
                                    =~= spec_emits(
                                    steps.subrange(k_fc + 1, k as int),
                                    pre[id as int].area,
                                ) + seq![spec_emit(p, pre[id as int].area)]);
                                assert(log@ =~= log_fc + ce0 + spec_emits(
                                    steps.subrange(k_fc + 1, k + 1),
                                    pre[id as int].area,
                                ));
                            }
                        }
                    },
                    DrawStep::SetContentDraw(b) => {
                        flag = b;
                        proof {
                            if content_draw_count(steps.subrange(0, k as int)) == 0 {
                                assert(spec_emits(steps.subrange(0, k + 1), pre[id as int].area)
                                    =~= spec_emits(
                                    steps.subrange(0, k as int),
                                    pre[id as int].area,
                                ));
                            }
                            if content_draw_count(steps.subrange(0, k as int)) == 1 {
                                assert(steps.subrange(k_fc + 1, k + 1).drop_last()
                                    =~= steps.subrange(k_fc + 1, k as int));
                                assert(steps.subrange(k_fc + 1, k + 1).last() == steps[k as int]);
                                assert(spec_emits(steps.subrange(k_fc + 1, k + 1), pre[id as int].area)
                                    =~= spec_emits(
                                    steps.subrange(k_fc + 1, k as int),
                                    pre[id as int].area,
                                ));
                                assert(log@ =~= log_fc + ce0 + spec_emits(
                                    steps.subrange(k_fc + 1, k + 1),
                                    pre[id as int].area,
                                ));
                            }
                        }
                    },
                    DrawStep::DrawContent => {
                        let ghost s_before = self.nodes@;
                        let ghost was_first = content_draw_count(steps.subrange(0, k as int))
                            == 0;
                        proof {
                            lemma_same_links_shape(pre, s_before);
                            if was_first {
                                crate::policy::lemma_steps_before_content(steps, k as int);
                                fc_seen = true;
                                log_fc = log@;
                                assert(log_fc == log0 + spec_emits(
                                    crate::policy::steps_before_content(steps),
                                    pre[id as int].area,
                                ));
                            }
                        }
                        self.draw_children(regs, log, id);
                        proof {
                            if was_first {
                                k_fc = k as int;
                                ce0 = log@.subrange(log_fc.len() as int, log@.len() as int);
                                assert(log_fc.is_prefix_of(log@));
                                assert(log@ =~= log_fc + ce0) by {
                                    assert forall|i2: int|
                                        0 <= i2 < log@.len() implies log@[i2] == (log_fc + ce0)[
                                    i2] by {
                                        if i2 < log_fc.len() {
                                            assert(log_fc[i2] == log@[i2]);
                                        }
                                    }
                                }
                                assert(steps.subrange(k_fc + 1, k_fc + 1)
                                    =~= Seq::<DrawStep>::empty());
                                assert(log@ == log_fc + ce0 + spec_emits(
                                    steps.subrange(k_fc + 1, k_fc + 1),
                                    pre[id as int].area,
                                )) by {
                                    assert(log_fc + ce0 + Seq::<DrawCmd>::empty() =~= log_fc + ce0);
                                }
                            }
                            assert(sub_end(s_before, id as int) == sub_end(pre, id as int));
                            crate::policy::lemma_count_nonneg(steps.subrange(0, k as int));
                            assert(content_draw_count(steps.subrange(0, k + 1)) >= 1);
                            if content_draw_count(steps.subrange(0, k as int)) == 0 {
                                assert(s_before =~= pre);
                                assert(children_drawn_once(pre, self.nodes@, kids(pre, id as int)));
                            } else {
                                assert(children_drawn_once(pre, s_before, kids(pre, id as int)));
                                assert forall|kk: int|
                                    0 <= kk < kids(pre, id as int).len() implies ((
                                    #[trigger] pre[kids(pre, id as int)[kk] as int]).phase
                                    matches NodePhase::Render { .. }
                                    ==> self.nodes@[kids(pre, id as int)[kk] as int].draw_runs == (
                                if pre[kids(pre, id as int)[kk] as int].render_dirty {
                                    spec_bump(pre[kids(pre, id as int)[kk] as int].draw_runs)
                                } else {
                                    pre[kids(pre, id as int)[kk] as int].draw_runs
                                })) by {
                                    let ck = kids(pre, id as int)[kk] as int;
                                    assert(s_before[ck].phase == pre[ck].phase);
                                    if pre[ck].phase matches NodePhase::Render { .. } {
                                        assert(!s_before[ck].render_dirty);
                                        assert(s_before[ck].phase matches NodePhase::Render {
                                            ..
                                        });
                                        assert(self.nodes@[ck].draw_runs == s_before[
                                            ck].draw_runs);
                                        assert(s_before[ck].draw_runs == (if pre[ck].render_dirty {
                                            spec_bump(pre[ck].draw_runs)
                                        } else {
                                            pre[ck].draw_runs
                                        }));
                                    }
                                }
                            }
                        }
                    },
                }
                proof {
                    if content_draw_count(steps.subrange(0, k + 1)) >= 1 {
                        crate::policy::lemma_count_nonneg(steps.subrange(0, k as int));
                        assert(log_fc.is_prefix_of(log@)) by {
                            if content_draw_count(steps.subrange(0, k as int)) >= 1 {
                                assert(log_fc.is_prefix_of(log_top));
                                assert forall|i2: int|
                                    0 <= i2 < log_fc.len() implies log_fc[i2] == log@[i2] by {
                                    assert(log_fc[i2] == log_top[i2]);
                                    assert(log_top.is_prefix_of(log@));
                                }
                            } else {
                                assert(steps[k as int] is DrawContent);
                            }
                        }
                    }
                }
                k += 1;
            }
            proof {
                assert(steps.subrange(0, nsteps as int) =~= steps);
                assert(flag == final_content_flag(steps));
                if content_draw_count(steps) >= 1 {
                    assert(children_drawn_once(pre, self.nodes@, kids(pre, id as int)));
                    assert(forall|kk: int|
                        0 <= kk < kids(pre, id as int).len() ==> !(#[trigger] self.nodes@[kids(
                            pre,
                            id as int,
                        )[kk] as int]).render_dirty);
                }
                if content_draw_count(steps) == 0 {
                    assert(forall|j: int| 0 <= j < pre.len() ==> self.nodes@[j] == pre[j]);
                    assert(log@ == log0 + spec_emits(steps, pre[id as int].area));
                    assert(regs@ == regs0);
                }
            }
        }
        let ghost sl = self.nodes@;
        let ghost log_sl = log@;
        proof {
            lemma_same_links_shape(pre, sl);
        }
        if flag {
            self.draw_children(regs, log, id);
            proof {
                assert(sub_end(sl, id as int) == sub_end(pre, id as int));
            }
        }
        let ghost s_fin = self.nodes@;
        let node = &mut self.nodes[id];
        node.render_dirty = false;
        if is_render {
            if node.draw_runs < u64::MAX {
                node.draw_runs = node.draw_runs + 1;
            }
        }
        proof {
            let post = self.nodes@;
            assert(same_links(pre, post));
            lemma_same_links_shape(pre, post);
            assert(regs_ok(post, regs@)) by {
                assert forall|j: int|
                    0 <= j < post.len() implies reg_in_range(
                    (#[trigger] post[j]).phase,
                    0,
                    regs@.len() as int,
                ) by {
                    assert(post[j].phase == pre[j].phase);
                    assert(reg_in_range(pre[j].phase, 0, regs0.len() as int));
                }
            }
            let cs = kids(pre, id as int);
            assert forall|kk: int|
                0 <= kk < cs.len() implies id < (cs[kk] as int) by {
                assert(kids(pre, id as int)[kk] == cs[kk]);
            }
            if children_drawn_once(pre, s_fin, cs) {
                assert forall|kk: int|
                    0 <= kk < cs.len() implies ((#[trigger] pre[cs[kk] as int]).phase
                    matches NodePhase::Render { .. } ==> post[cs[kk] as int].draw_runs == (if pre[
                    cs[kk] as int].render_dirty {
                    spec_bump(pre[cs[kk] as int].draw_runs)
                } else {
                    pre[cs[kk] as int].draw_runs
                })) by {
                    let ck = cs[kk] as int;
                    assert(post[ck] == s_fin[ck]);
                }
                assert(children_drawn_once(pre, post, cs));
            }
            if pre[id as int].phase matches NodePhase::Render { .. } {
                assert(s_fin[id as int] == pre[id as int]);
                assert(post[id as int].draw_runs == spec_bump(pre[id as int].draw_runs));
                if suppresses_content(steps) {
                    assert(!flag);
                    assert(log@ == log0 + spec_emits(steps, pre[id as int].area));
                    assert(regs@ == regs0);
                    assert forall|j: int|
                        id < j < sub_end(pre, id as int) implies post[j] == pre[j] by {
                        assert(post[j] == s_fin[j]);
                        assert(s_fin[j] == pre[j]);
                    }
                }
                if content_draw_count(steps) == 0 && final_content_flag(steps) {
                    assert(flag);
                    assert(log_sl == log0 + spec_emits(steps, pre[id as int].area));
                    let ce = log@.subrange(log_sl.len() as int, log@.len() as int);
                    assert(log@ =~= log0 + spec_emits(steps, pre[id as int].area) + ce) by {
                        assert(log_sl.is_prefix_of(log@));
                        assert forall|i2: int|
                            0 <= i2 < log@.len() implies log@[i2] == (log0 + spec_emits(
                            steps,
                            pre[id as int].area,
                        ) + ce)[i2] by {
                            if i2 < log_sl.len() {
                                assert(log@[i2] == log_sl[i2]);
                            }
                        }
                    }
                    assert(log@ == log0 + spec_emits(steps, pre[id as int].area) + ce);
                }
                if content_draw_count(steps) == 1 && !final_content_flag(steps) {
                    assert(!flag);
                    assert(0 <= k_fc < steps.len() && steps[k_fc] is DrawContent
                        && content_draw_count(steps.subrange(0, k_fc)) == 0);
                    crate::policy::lemma_steps_after_content(steps, k_fc);
                    assert(log@ == log_fc + ce0 + spec_emits(
                        crate::policy::steps_after_content(steps),
                        pre[id as int].area,
                    ));
                    let bfr = spec_emits(
                        crate::policy::steps_before_content(steps),
                        pre[id as int].area,
                    );
                    let aft = spec_emits(
                        crate::policy::steps_after_content(steps),
                        pre[id as int].area,
                    );
                    assert(log@ =~= log0 + bfr + ce0 + aft) by {
                        assert(log_fc == log0 + bfr);
                        assert forall|i2: int|
                            0 <= i2 < log@.len() implies log@[i2] == (log0 + bfr + ce0 + aft)[
                        i2] by {}
                    }
                    assert(log@ == log0 + bfr + ce0 + aft);
                }
                if content_draw_count(steps) >= 1 {
                    assert(fc_seen);
                    assert(log_fc == log0 + spec_emits(
                        crate::policy::steps_before_content(steps),
                        pre[id as int].area,
                    ));
                    assert(log_fc.is_prefix_of(log_sl));
                    let ce2 = log@.subrange(log_fc.len() as int, log@.len() as int);
                    assert(log@ =~= log0 + spec_emits(
                        crate::policy::steps_before_content(steps),
                        pre[id as int].area,
                    ) + ce2) by {
                        assert forall|i2: int|
                            0 <= i2 < log@.len() implies log@[i2] == (log0 + spec_emits(
                            crate::policy::steps_before_content(steps),
                            pre[id as int].area,
                        ) + ce2)[i2] by {
                            if i2 < log_fc.len() {
                                assert(log_fc[i2] == log_sl[i2]);
                                assert(log_sl.is_prefix_of(log@));
                            }
                        }
                    }
                    assert(log@ == log0 + spec_emits(
                        crate::policy::steps_before_content(steps),
                        pre[id as int].area,
                    ) + ce2);
                    assert(children_drawn_once(pre, sl, cs));
                    if flag {
                        assert(kids(sl, id as int) == cs);
                        assert(children_drawn_once(sl, s_fin, kids(sl, id as int)));
                        assert forall|kk: int|
                            0 <= kk < cs.len() implies ((#[trigger] pre[cs[kk] as int]).phase
                            matches NodePhase::Render { .. } ==> s_fin[cs[kk] as int].draw_runs
                            == (if pre[cs[kk] as int].render_dirty {
                            spec_bump(pre[cs[kk] as int].draw_runs)
                        } else {
                            pre[cs[kk] as int].draw_runs
                        })) by {
                            let ck = cs[kk] as int;
                            assert(sl[ck].phase == pre[ck].phase);
                            if pre[ck].phase matches NodePhase::Render { .. } {
                                assert(!sl[ck].render_dirty);
                                assert(sl[ck].phase matches NodePhase::Render { .. });
                                assert(s_fin[ck].draw_runs == sl[ck].draw_runs);
                            }
                        }
                        assert(children_drawn_once(pre, s_fin, cs));
                    } else {
                        assert(s_fin == sl);
                        assert(children_drawn_once(pre, s_fin, cs));
                    }
                } else {
                    if final_content_flag(steps) {
                        assert(flag);
                        assert(content_draw_count(steps) == 0) by {
                            crate::policy::lemma_count_nonneg(steps);
                        }
                        assert(forall|j: int| 0 <= j < pre.len() ==> sl[j] == pre[j]);
                        assert(sl.len() == pre.len());
                        assert(sl =~= pre);
                        assert(children_drawn_once(sl, s_fin, kids(sl, id as int)));
                        assert(children_drawn_once(pre, s_fin, cs));
                    }
                }
                if content_draw_count(steps) >= 1 || final_content_flag(steps) {
                    assert(children_drawn_once(pre, s_fin, cs));
                    assert(children_drawn_once(pre, post, cs));
                }
            }
        }
    }

    /// Paints every structural child of the node at `id`, in order, each
    /// with a fresh default content-draw flag.
    #[verifier::loop_isolation(false)]
    fn draw_children(&mut self, regs: &mut Vec<Registry>, log: &mut Vec<DrawCmd>, id: usize)
        requires
            shape_ok(old(self).nodes@),
            id < old(self).nodes@.len(),
            regs_ok(old(self).nodes@, old(regs)@),
            regs_wf(old(regs)@),
        ensures
            final(self).nodes@.len() == old(self).nodes@.len(),
            same_links(old(self).nodes@, final(self).nodes@),
            shape_ok(final(self).nodes@),
            forall|j: int|
                0 <= j < old(self).nodes@.len() && !(id < j < sub_end(
                    old(self).nodes@,
                    id as int,
                )) ==> final(self).nodes@[j] == old(self).nodes@[j],
            forall|j: int|
                id < j < sub_end(old(self).nodes@, id as int) ==> render_keeps(
                    old(self).nodes@[j],
                    #[trigger] final(self).nodes@[j],
                ),
            final(regs)@.len() == old(regs)@.len(),
            regs_wf(final(regs)@),
            regs_ok(final(self).nodes@, final(regs)@),
            old(log)@.is_prefix_of(final(log)@),
            children_drawn_once(
                old(self).nodes@,
                final(self).nodes@,
                kids(old(self).nodes@, id as int),
            ),
            forall|k: int|
                0 <= k < kids(old(self).nodes@, id as int).len()
                    ==> !(#[trigger] final(self).nodes@[kids(
                    old(self).nodes@,
                    id as int,
                )[k] as int]).render_dirty,
        decreases regs@.len(), self.nodes@.len() - id, 0int,
    {
        let ghost pre = self.nodes@;
        let ghost regs0 = regs@;
        let ghost log0 = log@;
        proof {
            lemma_sub_end_bounds(pre, id as int);
            assert(node_spans_ok(pre, id as int));
        }
        let n = self.nodes[id].children.len();
        let ghost cs = kids(pre, id as int);
        let mut k: usize = 0;
        while k < n
            invariant
                k <= n,
                n == cs.len(),
                self.nodes@.len() == pre.len(),
                same_links(pre, self.nodes@),
                shape_ok(self.nodes@),
                frontier(pre, id as int, k as int) <= sub_end(pre, id as int),
                forall|j: int|
                    0 <= j < pre.len() && !(id + 1 <= j < frontier(pre, id as int, k as int))
                        ==> self.nodes@[j] == pre[j],
                forall|j: int|
                    id + 1 <= j < frontier(pre, id as int, k as int) ==> render_keeps(
                        pre[j],
                        #[trigger] self.nodes@[j],
                    ),
                regs@.len() == regs0.len(),
                regs_wf(regs@),
                regs_ok(self.nodes@, regs@),
                log0.is_prefix_of(log@),
                forall|kk: int|
                    0 <= kk < k ==> ((#[trigger] pre[cs[kk] as int]).phase
                        matches NodePhase::Render { .. } ==> self.nodes@[cs[kk] as int].draw_runs
                        == (if pre[cs[kk] as int].render_dirty {
                        spec_bump(pre[cs[kk] as int].draw_runs)
                    } else {
                        pre[cs[kk] as int].draw_runs
                    })),
                forall|kk: int|
                    0 <= kk < k ==> !(#[trigger] self.nodes@[cs[kk] as int]).render_dirty,
            decreases n - k,
        {
            let ghost s = self.nodes@;
            let ghost logk = log@;
            proof {
                lemma_same_links_shape(pre, s);
            }
            let cid = self.nodes[id].children[k];
            proof {
                assert(cid == cs[k as int]);
                lemma_sub_end_bounds(pre, cid as int);
                lemma_child_segment(pre, id as int, k as int);
            }
            self.render_node(regs, log, cid);
            proof {
                let u = self.nodes@;
                assert(sub_end(s, cid as int) == sub_end(pre, cid as int));
                if k + 1 < n {
                    assert(kids(pre, id as int)[k + 1] == sub_end(pre, cs[k as int] as int));
                } else {
                    assert(sub_end(pre, id as int) == sub_end(pre, cs[n - 1] as int));
                }
                assert(s[cid as int] == pre[cid as int]);
                assert(logk.is_prefix_of(log@));
                assert(log0.is_prefix_of(log@)) by {
                    assert forall|i2: int| 0 <= i2 < log0.len() implies log0[i2] == log@[i2] by {
                        assert(log0[i2] == logk[i2]);
                    }
                }
                assert forall|kk: int|
                    0 <= kk < k + 1 implies ((#[trigger] pre[cs[kk] as int]).phase
                    matches NodePhase::Render { .. } ==> u[cs[kk] as int].draw_runs == (if pre[cs[
                    kk] as int].render_dirty {
                    spec_bump(pre[cs[kk] as int].draw_runs)
                } else {
                    pre[cs[kk] as int].draw_runs
                })) && !u[cs[kk] as int].render_dirty by {
                    let ck = cs[kk] as int;
                    if kk < k {
                        assert(ck == frontier(pre, id as int, kk));
                        crate::tree::lemma_frontier_step(pre, id as int, kk);
                        crate::tree::lemma_frontier_mono(pre, id as int, kk + 1, k as int);
                        assert(ck < cid as int);
                        assert(u[ck] == s[ck]);
                    } else {
                        assert(ck == cid as int);
                        if pre[ck].phase matches NodePhase::Render { .. } {
                            if pre[ck].render_dirty {
                            } else {
                                assert(u[ck] == s[ck]);
                            }
                        }
                    }
                }
            }
            k += 1;
        }
    }
}

/// Forwards one draw pass into every instance of the registry: each
/// instance's top-level children are painted under their own dirtiness.
#[verifier::loop_isolation(false)]
fn render_registry(reg: &mut Registry, log: &mut Vec<DrawCmd>)
    requires
        registry_wf(*old(reg)),
    ensures
        registry_wf(*final(reg)),
        final(reg).entries@.len() == old(reg).entries@.len(),
        forall|s: int|
            0 <= s < old(reg).entries@.len() ==> (#[trigger] final(reg).entries@[s]).key == old(
                reg,
            ).entries@[s].key && same_links(
                old(reg).entries@[s].instance.tree.nodes@,
                final(reg).entries@[s].instance.tree.nodes@,
            ),
        old(log)@.is_prefix_of(final(log)@),
        registry_forwarded(*old(reg), *final(reg)),
    decreases 1int, 0int, 0int,
{
    let ghost reg0 = *reg;
    let ghost log0 = log@;
    let n = reg.entries.len();
    let mut s: usize = 0;
    while s < n
        invariant
            s <= n,
            n == reg.entries@.len(),
            reg.entries@.len() == reg0.entries@.len(),
            registry_wf(*reg),
            forall|ss: int|
                0 <= ss < reg0.entries@.len() ==> (#[trigger] reg.entries@[ss]).key
                    == reg0.entries@[ss].key && same_links(
                    reg0.entries@[ss].instance.tree.nodes@,
                    reg.entries@[ss].instance.tree.nodes@,
                ),
            forall|ss: int, k: int|
                0 <= ss < s && 0 <= k < kids(reg.entries@[ss].instance.tree.nodes@, 0).len()
                    ==> !(#[trigger] reg.entries@[ss].instance.tree.nodes@[kids(
                    reg.entries@[ss].instance.tree.nodes@,
                    0,
                )[k] as int]).render_dirty,
            log0.is_prefix_of(log@),
        decreases n - s,
    {
        let ghost reg_s = *reg;
        let ghost t0 = reg.entries@[s as int].instance.tree.nodes@;
        let ghost logs = log@;
        proof {
            assert(instance_wf(reg_s.entries@[s as int].instance));
            lemma_sub_end_bounds(t0, 0);
            assert(node_spans_ok(t0, 0));
        }
        let m = reg.entries[s].instance.tree.nodes[0].children.len();
        let mut k: usize = 0;
        while k < m
            invariant
                k <= m,
                s < reg.entries@.len(),
                m == kids(t0, 0).len(),
                reg.entries@.len() == reg_s.entries@.len(),
                forall|ss: int|
                    0 <= ss < reg.entries@.len() && ss != s ==> reg.entries@[ss]
                        == #[trigger] reg_s.entries@[ss],
                reg.entries@[s as int].key == reg_s.entries@[s as int].key,
                reg.entries@[s as int].instance.tree.nodes@.len() == t0.len(),
                same_links(t0, reg.entries@[s as int].instance.tree.nodes@),
                shape_ok(reg.entries@[s as int].instance.tree.nodes@),
                tree_basic(reg.entries@[s as int].instance.tree.nodes@),
                forall|kk: int|
                    0 <= kk < k ==> !(#[trigger] reg.entries@[s as int].instance.tree.nodes@[kids(
                        t0,
                        0,
                    )[kk] as int]).render_dirty,
                logs.is_prefix_of(log@),
            decreases m - k,
        {
            let ghost tcur = reg.entries@[s as int].instance.tree.nodes@;
            let ghost logkk = log@;
            proof {
                lemma_same_links_shape(t0, tcur);
            }
            let cid = reg.entries[s].instance.tree.nodes[0].children[k];
            proof {
                assert(cid == kids(t0, 0)[k as int]);
                assert((cid as int) < t0.len());
            }
            let mut no_regs: Vec<Registry> = Vec::new();
            proof {
                assert(regs_ok(tcur, no_regs@)) by {
                    assert forall|j: int|
                        0 <= j < tcur.len() implies reg_in_range(
                        (#[trigger] tcur[j]).phase,
                        0,
                        no_regs@.len() as int,
                    ) by {
                        assert(!(tcur[j].phase matches NodePhase::MeasurementCompose { .. }));
                    }
                }
            }
            proof {
                lemma_sub_end_bounds(t0, cid as int);
                crate::tree::lemma_child_segment(t0, 0, k as int);
                assert(node_spans_ok(t0, 0));
            }
            reg.entries[s].instance.tree.render_node(&mut no_regs, log, cid);
            proof {
                let tnew = reg.entries@[s as int].instance.tree.nodes@;
                assert(sub_end(tcur, cid as int) == sub_end(t0, cid as int));
                assert forall|kk: int|
                    0 <= kk < k + 1 implies !(#[trigger] tnew[kids(t0, 0)[kk] as int]).render_dirty
                by {
                    let ck = kids(t0, 0)[kk] as int;
                    if kk < k {
                        assert(ck == frontier(t0, 0, kk));
                        crate::tree::lemma_frontier_step(t0, 0, kk);
                        crate::tree::lemma_frontier_mono(t0, 0, kk + 1, k as int);
                        assert(ck < cid as int);
                        assert(tnew[ck] == tcur[ck]);
                    } else {
                        assert(ck == cid as int);
                    }
                }
                assert(same_links(t0, tnew)) by {
                    assert forall|j: int| 0 <= j < t0.len() implies kids(t0, j) == #[trigger] kids(
                        tnew,
                        j,
                    ) by {
                        assert(kids(tcur, j) == kids(t0, j));
                        assert(kids(tnew, j) == kids(tcur, j));
                    }
                }
                lemma_same_links_shape(t0, tnew);
                assert(tree_basic(tnew)) by {
                    assert forall|j: int|
                        0 <= j < tnew.len() implies !((#[trigger] tnew[j]).phase
                            matches NodePhase::MeasurementCompose { .. }) by {
                        assert(tnew[j].phase == tcur[j].phase);
                    }
                }
                assert(logs.is_prefix_of(log@)) by {
                    assert forall|i2: int| 0 <= i2 < logs.len() implies logs[i2] == log@[i2] by {
                        assert(logs[i2] == logkk[i2]);
                    }
                }
            }
            k += 1;
        }
        proof {
            let tcur = reg.entries@[s as int].instance.tree.nodes@;
            lemma_same_links_shape(t0, tcur);
            assert(instance_wf(reg.entries@[s as int].instance)) by {
                assert(sub_end(tcur, 0) == sub_end(t0, 0));
            }
            assert(registry_wf(*reg)) by {
                assert forall|ss: int|
                    0 <= ss < reg.entries@.len() implies instance_wf(
                    (#[trigger] reg.entries@[ss]).instance,
                ) by {
                    if ss != s {
                        assert(reg.entries@[ss] == reg_s.entries@[ss]);
                    }
                }
                assert forall|s1: int, s2: int|
                    0 <= s1 < s2 < reg.entries@.len() implies (#[trigger] reg.entries@[s1]).key
                    != (#[trigger] reg.entries@[s2]).key by {
                    assert(reg.entries@[s1].key == reg_s.entries@[s1].key);
                    assert(reg.entries@[s2].key == reg_s.entries@[s2].key);
                }
            }
            assert(log0.is_prefix_of(log@)) by {
                assert forall|i2: int| 0 <= i2 < log0.len() implies log0[i2] == log@[i2] by {
                    assert(log0[i2] == logs[i2]);
                }
            }
            assert forall|ss: int|
                0 <= ss < reg0.entries@.len() implies (#[trigger] reg.entries@[ss]).key
                == reg0.entries@[ss].key && same_links(
                reg0.entries@[ss].instance.tree.nodes@,
                reg.entries@[ss].instance.tree.nodes@,
            ) by {
                let a = reg0.entries@[ss].instance.tree.nodes@;
                let b = reg_s.entries@[ss].instance.tree.nodes@;
                let d = reg.entries@[ss].instance.tree.nodes@;
                assert(reg_s.entries@[ss].key == reg0.entries@[ss].key);
                assert(same_links(a, b));
                if ss != s {
                    assert(reg.entries@[ss] == reg_s.entries@[ss]);
                    assert forall|j: int| 0 <= j < a.len() implies kids(a, j) == #[trigger] kids(
                        d,
                        j,
                    ) by {
                        assert(kids(a, j) == kids(b, j));
                    }
                    assert(same_links(a, d));
                } else {
                    assert(same_links(b, d)) by {
                        assert(same_links(t0, d));
                    }
                    assert forall|j: int| 0 <= j < a.len() implies kids(a, j) == #[trigger] kids(
                        d,
                        j,
                    ) by {
                        assert(kids(a, j) == kids(b, j));
                        assert(kids(b, j) == kids(d, j));
                    }
                    assert(same_links(a, d));
                }
            }
            assert forall|ss: int, kkk: int|
                0 <= ss < s + 1 && 0 <= kkk < kids(
                    reg.entries@[ss].instance.tree.nodes@,
                    0,
                ).len() implies !(#[trigger] reg.entries@[ss].instance.tree.nodes@[kids(
                reg.entries@[ss].instance.tree.nodes@,
                0,
            )[kkk] as int]).render_dirty by {
                if ss < s {
                    assert(reg.entries@[ss] == reg_s.entries@[ss]);
                } else {
                    let d = reg.entries@[s as int].instance.tree.nodes@;
                    assert(kids(d, 0) == kids(t0, 0));
                    assert(!d[kids(t0, 0)[kkk] as int].render_dirty);
                }
            }
        }
        s += 1;
    }
    proof {
        assert(registry_forwarded(reg0, *reg)) by {
            assert forall|ss: int, kkk: int|
                0 <= ss < reg.entries@.len() && 0 <= kkk < kids(
                    reg.entries@[ss].instance.tree.nodes@,
                    0,
                ).len() implies !(#[trigger] reg.entries@[ss].instance.tree.nodes@[kids(
                reg.entries@[ss].instance.tree.nodes@,
                0,
            )[kkk] as int]).render_dirty by {
                assert(ss < s);
            }
        }
    }
}

} // verus!
