//! The engine: one node tree, its slot registries, the canvas constraints
//! and the drawing surface, driven by two explicit top-level calls — one
//! layout pass, one frame.

use vstd::prelude::*;

use crate::compose::{built_from, pols_basic, reg_in_range, Registry};
use crate::constraints::Constraints;
use crate::geometry::{Rect, Size};
use crate::measure::{dirty_measure_ok, regs_ok, regs_wf};
use crate::policy::{DrawCmd, Template};
use crate::tree::{
    dirtied_node, kids, lemma_same_links_shape, same_links, sub_end, NodePhase, Tree,
};

verus! {

broadcast use vstd::std_specs::vec::group_vec_axioms;

/// The layout-and-render engine.
///
/// The arena, the dirty flags and the slot registries are single-owner and
/// mutated in place only during the two passes; nested instances borrow
/// the drawing surface, they never own it.
#[derive(Debug)]
pub struct Engine {
    /// The node arena; the root is at index zero.
    pub tree: Tree,
    /// One slot registry per subcompose node, addressed by index.
    pub registries: Vec<Registry>,
    /// The box constraints the root is measured under, derived from the
    /// canvas dimensions.
    pub root_constraints: Constraints,
    /// The drawing surface, modeled as the log of recorded paint commands.
    pub log: Vec<DrawCmd>,
}

impl Engine {
    /// A well-formed engine: a well-formed arena whose subcompose nodes
    /// each point at their own registry of well-formed instances, and
    /// well-formed canvas constraints.
    pub open spec fn wf(self) -> bool {
        &&& self.tree.wf()
        &&& regs_ok(self.tree.nodes@, self.registries@)
        &&& regs_wf(self.registries@)
        &&& pols_basic(self.tree.nodes@)
        &&& self.root_constraints.wf()
    }

    /// Builds the node tree for a canvas of the given dimensions from the
    /// root declaration. Every node starts dirty with a zero area.
    pub fn new(width: i64, height: i64, template: &Template) -> (e: Engine)
        requires
            width >= 0,
            height >= 0,
            crate::policy::template_wf(*template),
        ensures
            e.wf(),
            built_from(e.tree.nodes@, 0, *template),
            forall|j: int|
                0 <= j < e.tree.nodes@.len() ==> crate::compose::fresh_node_ok(
                    #[trigger] e.tree.nodes@[j],
                ),
            e.log@ == Seq::<DrawCmd>::empty(),
            e.root_constraints.min == (Size { width: 0, height: 0 }),
            e.root_constraints.max == (Size { width, height }),
    {
        let mut tree = Tree { nodes: Vec::new() };
        let mut regs: Vec<Registry> = Vec::new();
        proof {
            assert(crate::tree::links_ok(tree.nodes@));
            assert(crate::tree::spans_ok(tree.nodes@));
        }
        let p = tree.build_node(&mut regs, template);
        let e = Engine {
            tree,
            registries: regs,
            root_constraints: Constraints::new(0, width, 0, height),
            log: Vec::new(),
        };
        proof {
            assert(e.tree.wf());
            assert(regs_ok(e.tree.nodes@, e.registries@)) by {
                assert forall|j: int|
                    0 <= j < e.tree.nodes@.len() implies reg_in_range(
                    (#[trigger] e.tree.nodes@[j]).phase,
                    0,
                    e.registries@.len() as int,
                ) by {
                    assert(reg_in_range(e.tree.nodes@[j].phase, 0, e.registries@.len() as int));
                }
            }
            assert(regs_wf(e.registries@)) by {
                assert forall|q: int|
                    0 <= q < e.registries@.len() implies crate::measure::registry_wf(
                    #[trigger] e.registries@[q],
                ) by {
                    assert(e.registries@[q].entries@.len() == 0);
                }
            }
            assert(pols_basic(e.tree.nodes@));
        }
        e
    }

    /// One re-composition pass: re-declares the tree from the root
    /// template. A template whose behavior handles all match the stored
    /// ones changes nothing at all; a changed handle replaces the stored
    /// behavior and dirties its node. Structure, placement and counters
    /// are never touched.
    pub fn recompose(&mut self, template: &Template)
        requires
            old(self).wf(),
            crate::policy::template_wf(*template),
        ensures
            final(self).wf(),
            same_links(old(self).tree.nodes@, final(self).tree.nodes@),
            forall|j: int|
                0 <= j < old(self).tree.nodes@.len() ==> crate::compose::update_keeps(
                    old(self).tree.nodes@[j],
                    #[trigger] final(self).tree.nodes@[j],
                ),
            crate::compose::handles_match(old(self).tree.nodes@, 0, *template) ==> final(self).tree.nodes@ == old(self).tree.nodes@,
            crate::compose::updated_from(old(self).tree.nodes@, final(self).tree.nodes@, 0, *template),
            final(self).registries@ == old(self).registries@,
            final(self).log@ == old(self).log@,
            final(self).root_constraints == old(self).root_constraints,
    {
        let ghost pre = self.tree.nodes@;
        self.tree.update_node(0, template);
        proof {
            let post = self.tree.nodes@;
            lemma_same_links_shape(pre, post);
            crate::tree::lemma_sub_end_bounds(pre, 0);
            assert forall|j: int|
                0 <= j < pre.len() implies crate::compose::update_keeps(
                pre[j],
                #[trigger] post[j],
            ) by {
                if !(0 <= j < sub_end(pre, 0)) {
                    assert(post[j] == pre[j]);
                }
            }
            assert(regs_ok(post, self.registries@)) by {
                assert forall|j: int|
                    0 <= j < post.len() implies reg_in_range(
                    (#[trigger] post[j]).phase,
                    0,
                    self.registries@.len() as int,
                ) by {
                    assert(crate::compose::phase_like(post[j].phase, pre[j].phase));
                    assert(reg_in_range(pre[j].phase, 0, self.registries@.len() as int));
                }
            }
        }
    }

    /// One layout pass: measures the root under the canvas constraints.
    ///
    /// If the root is already clean, the engine is left exactly as it was
    /// and no measurement behavior runs at all; otherwise the root's
    /// behavior recomputes, memoized per node.
    pub fn compute_layout(&mut self) -> (r: Size)
        requires
            old(self).wf(),
        ensures
            final(self).wf(),
            !final(self).tree.nodes@[0].layout_dirty,
            r == final(self).tree.nodes@[0].area.size,
            final(self).tree.nodes@[0].area.origin == old(self).tree.nodes@[0].area.origin,
            same_links(old(self).tree.nodes@, final(self).tree.nodes@),
            final(self).log@ == old(self).log@,
            final(self).root_constraints == old(self).root_constraints,
            !old(self).tree.nodes@[0].layout_dirty ==> final(self).tree.nodes@ == old(self).tree.nodes@ && final(self).registries@ == old(self).registries@ && r == old(self).tree.nodes@[0].area.size,
            old(self).tree.nodes@[0].layout_dirty ==> dirty_measure_ok(
                old(self).tree.nodes@,
                final(self).tree.nodes@,
                0,
                old(self).root_constraints,
                r,
            ),
            exists|orc: Seq<Size>|
                #![trigger crate::measure::measured(old(self).tree.nodes@, 0, old(self).root_constraints, orc)]
                r == crate::measure::measured(
                    old(self).tree.nodes@,
                    0,
                    old(self).root_constraints,
                    orc,
                ),
            (old(self).tree.nodes@[0].phase matches NodePhase::Measurement {
                policy: crate::policy::MeasurePolicy::Column,
                ..
            } && old(self).tree.nodes@[0].layout_dirty) ==> exists|orc: Seq<Size>|
                #![trigger crate::measure::column_sized(
                    old(self).tree.nodes@,
                    final(self).tree.nodes@,
                    0,
                    old(self).root_constraints,
                    r,
                    orc,
                )]
                crate::measure::column_sized(
                    old(self).tree.nodes@,
                    final(self).tree.nodes@,
                    0,
                    old(self).root_constraints,
                    r,
                    orc,
                ),
    {
        let ghost pre = self.tree.nodes@;
        let c = self.root_constraints;
        let r = self.tree.measure_node(&mut self.registries, 0, c);
        proof {
            lemma_same_links_shape(pre, self.tree.nodes@);
            let orc = choose|orc: Seq<Size>|
                #![trigger crate::measure::measured(pre, 0, c, orc)]
                r == crate::measure::measured(pre, 0, c, orc);
            assert(r == crate::measure::measured(pre, 0, c, orc));
        }
        r
    }

    /// One frame: paints the tree depth-first into the command log. Nodes
    /// whose render flag is clean are skipped; subcompose nodes always
    /// forward into their registries.
    pub fn draw_all(&mut self)
        requires
            old(self).wf(),
        ensures
            final(self).wf(),
            same_links(old(self).tree.nodes@, final(self).tree.nodes@),
            forall|j: int|
                0 <= j < old(self).tree.nodes@.len() ==> crate::render::render_keeps(
                    old(self).tree.nodes@[j],
                    #[trigger] final(self).tree.nodes@[j],
                ),
            !final(self).tree.nodes@[0].render_dirty,
            old(self).log@.is_prefix_of(final(self).log@),
            final(self).root_constraints == old(self).root_constraints,
            (!(old(self).tree.nodes@[0].phase matches NodePhase::MeasurementCompose { .. })
                && !old(self).tree.nodes@[0].render_dirty) ==> final(self).tree.nodes@ == old(self).tree.nodes@ && final(self).log@ == old(self).log@ && final(self).registries@ == old(self).registries@,
            old(self).tree.nodes@[0].phase matches NodePhase::Render { steps, .. } ==> old(self).tree.nodes@[0].render_dirty ==> {
                &&& final(self).tree.nodes@[0].draw_runs == crate::measure::spec_bump(
                    old(self).tree.nodes@[0].draw_runs,
                )
                &&& (crate::render::suppresses_content(steps@) ==> final(self).log@ == old(self).log@ + crate::policy::spec_emits(steps@, old(self).tree.nodes@[0].area) && (
                forall|j: int|
                    0 < j < old(self).tree.nodes@.len() ==> final(self).tree.nodes@[j] == old(self).tree.nodes@[j]) && final(self).registries@ == old(self).registries@)
                &&& ((crate::policy::content_draw_count(steps@) >= 1
                    || crate::policy::final_content_flag(steps@)) ==> crate::render::children_drawn_once(
                    old(self).tree.nodes@,
                    final(self).tree.nodes@,
                    crate::tree::kids(old(self).tree.nodes@, 0),
                ) && crate::render::children_render_clean(
                    final(self).tree.nodes@,
                    crate::tree::kids(old(self).tree.nodes@, 0),
                ))
                &&& ((crate::policy::content_draw_count(steps@) == 0
                    && crate::policy::final_content_flag(steps@)) ==> exists|ce: Seq<DrawCmd>|
                    #![trigger old(self).log@ + crate::policy::spec_emits(
                        steps@,
                        old(self).tree.nodes@[0].area,
                    ) + ce]
                    final(self).log@ == old(self).log@ + crate::policy::spec_emits(
                        steps@,
                        old(self).tree.nodes@[0].area,
                    ) + ce)
                &&& (crate::policy::content_draw_count(steps@) >= 1 ==> exists|ce: Seq<DrawCmd>|
                    #![trigger old(self).log@ + crate::policy::spec_emits(
                        crate::policy::steps_before_content(steps@),
                        old(self).tree.nodes@[0].area,
                    ) + ce]
                    final(self).log@ == old(self).log@ + crate::policy::spec_emits(
                        crate::policy::steps_before_content(steps@),
                        old(self).tree.nodes@[0].area,
                    ) + ce)
                &&& ((crate::policy::content_draw_count(steps@) == 1
                    && !crate::policy::final_content_flag(steps@)) ==> exists|ce: Seq<DrawCmd>|
                    #![trigger old(self).log@ + crate::policy::spec_emits(
                        crate::policy::steps_before_content(steps@),
                        old(self).tree.nodes@[0].area,
                    ) + ce + crate::policy::spec_emits(
                        crate::policy::steps_after_content(steps@),
                        old(self).tree.nodes@[0].area,
                    )]
                    final(self).log@ == old(self).log@ + crate::policy::spec_emits(
                        crate::policy::steps_before_content(steps@),
                        old(self).tree.nodes@[0].area,
                    ) + ce + crate::policy::spec_emits(
                        crate::policy::steps_after_content(steps@),
                        old(self).tree.nodes@[0].area,
                    ))
            },
            ((old(self).tree.nodes@[0].phase matches NodePhase::Virtual || old(self).tree.nodes@[0].phase matches NodePhase::Measurement { .. }) && old(self).tree.nodes@[0].render_dirty) ==> crate::render::children_drawn_once(
                old(self).tree.nodes@,
                final(self).tree.nodes@,
                crate::tree::kids(old(self).tree.nodes@, 0),
            ) && crate::render::children_render_clean(
                final(self).tree.nodes@,
                crate::tree::kids(old(self).tree.nodes@, 0),
            ),
            old(self).tree.nodes@[0].phase matches NodePhase::MeasurementCompose {
                registry,
                ..
            } ==> crate::render::registry_forwarded(
                old(self).registries@[registry as int],
                final(self).registries@[registry as int],
            ) && (forall|q: int|
                0 <= q < old(self).registries@.len() && q != registry ==> final(self).registries@[q] == old(self).registries@[q]),
    {
        let ghost pre = self.tree.nodes@;
        self.tree.render_node(&mut self.registries, &mut self.log, 0);
        proof {
            crate::tree::lemma_sub_end_bounds(pre, 0);
            lemma_same_links_shape(pre, self.tree.nodes@);
            assert forall|j: int|
                0 <= j < pre.len() implies crate::render::render_keeps(
                pre[j],
                #[trigger] self.tree.nodes@[j],
            ) by {
                if !(0 <= j < sub_end(pre, 0)) {
                    assert(self.tree.nodes@[j] == pre[j]);
                }
            }
            assert(pols_basic(self.tree.nodes@)) by {
                assert forall|j: int|
                    0 <= j < self.tree.nodes@.len() implies crate::compose::node_pol_basic(
                    #[trigger] self.tree.nodes@[j],
                ) by {
                    assert(crate::render::render_keeps(pre[j], self.tree.nodes@[j]));
                    assert(self.tree.nodes@[j].phase == pre[j].phase);
                    assert(crate::compose::node_pol_basic(pre[j]));
                }
            }
        }
    }

    /// Forces the layout and render flags of the subtree rooted at `id`,
    /// recursively; everything else is untouched.
    pub fn mark_dirty(&mut self, id: usize)
        requires
            old(self).wf(),
            id < old(self).tree.nodes@.len(),
        ensures
            final(self).wf(),
            final(self).tree.nodes@.len() == old(self).tree.nodes@.len(),
            forall|j: int|
                id <= j < sub_end(old(self).tree.nodes@, id as int) ==> final(self).tree.nodes@[j]
                    == dirtied_node(old(self).tree.nodes@[j]),
            forall|j: int|
                0 <= j < old(self).tree.nodes@.len() && !(id <= j < sub_end(
                    old(self).tree.nodes@,
                    id as int,
                )) ==> final(self).tree.nodes@[j] == old(self).tree.nodes@[j],
            final(self).registries@ == old(self).registries@,
            final(self).log@ == old(self).log@,
            final(self).root_constraints == old(self).root_constraints,
    {
        let ghost pre = self.tree.nodes@;
        self.tree.mark_dirty(id);
        proof {
            let post = self.tree.nodes@;
            assert forall|j: int| 0 <= j < pre.len() implies kids(pre, j) == #[trigger] kids(
                post,
                j,
            ) by {
                if id <= j < sub_end(pre, id as int) {
                    assert(post[j] == dirtied_node(pre[j]));
                } else {
                    assert(post[j] == pre[j]);
                }
            }
            assert(same_links(pre, post));
            lemma_same_links_shape(pre, post);
            assert(regs_ok(post, self.registries@)) by {
                assert forall|j: int|
                    0 <= j < post.len() implies reg_in_range(
                    (#[trigger] post[j]).phase,
                    0,
                    self.registries@.len() as int,
                ) by {
                    assert(post[j].phase == pre[j].phase);
                    assert(reg_in_range(pre[j].phase, 0, self.registries@.len() as int));
                }
            }
            assert(pols_basic(post)) by {
                assert forall|j: int|
                    0 <= j < post.len() implies crate::compose::node_pol_basic(#[trigger] post[j])
                by {
                    assert(post[j].phase == pre[j].phase);
                    assert(crate::compose::node_pol_basic(pre[j]));
                }
            }
        }
    }

    /// How many nodes the arena holds.
    pub fn node_count(&self) -> (r: usize)
        ensures
            r == self.tree.nodes@.len(),
    {
        self.tree.nodes.len()
    }

    /// The placement rectangle of the node at `id`.
    pub fn get_area(&self, id: usize) -> (r: Rect)
        requires
            id < self.tree.nodes@.len(),
        ensures
            r == self.tree.nodes@[id as int].area,
    {
        self.tree.nodes[id].area
    }

    /// How many times the node's measurement behavior has run.
    pub fn measure_runs(&self, id: usize) -> (r: u64)
        requires
            id < self.tree.nodes@.len(),
        ensures
            r == self.tree.nodes@[id as int].measure_runs,
    {
        self.tree.nodes[id].measure_runs
    }

    /// How many times the node's drawing behavior has run.
    pub fn draw_runs(&self, id: usize) -> (r: u64)
        requires
            id < self.tree.nodes@.len(),
        ensures
            r == self.tree.nodes@[id as int].draw_runs,
    {
        self.tree.nodes[id].draw_runs
    }

    /// How many slots the registry of the subcompose node at `id` holds;
    /// zero for any other node.
    pub fn slot_count(&self, id: usize) -> (r: usize)
        requires
            self.wf(),
            id < self.tree.nodes@.len(),
        ensures
            self.tree.nodes@[id as int].phase matches NodePhase::MeasurementCompose {
                registry,
                ..
            } ==> r == self.registries@[registry as int].entries@.len(),
            !(self.tree.nodes@[id as int].phase matches NodePhase::MeasurementCompose { .. })
                ==> r == 0,
    {
        match &self.tree.nodes[id].phase {
            NodePhase::MeasurementCompose { registry, .. } => {
                proof {
                    assert(reg_in_range(
                        self.tree.nodes@[id as int].phase,
                        0,
                        self.registries@.len() as int,
                    ));
                }
                self.registries[*registry].entries.len()
            },
            _ => 0,
        }
    }

    /// How many commands the drawing surface has recorded.
    pub fn log_len(&self) -> (r: usize)
        ensures
            r == self.log@.len(),
    {
        self.log.len()
    }

    /// The `k`-th recorded drawing command.
    pub fn log_get(&self, k: usize) -> (r: DrawCmd)
        requires
            k < self.log@.len(),
        ensures
            r == self.log@[k as int],
    {
        self.log[k]
    }
}

} // verus!
