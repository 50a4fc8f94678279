//! Behaviors stored in nodes, as data.
//!
//! A node's measurement or drawing behavior is an interned value carried
//! next to an identity handle. Re-declaring a node with the same handle is
//! a no-op; a different handle replaces the behavior and dirties the node.
//! Templates describe content: the subtree a builder declares under a node.

use vstd::prelude::*;

use crate::color::Color;
use crate::geometry::{Rect, Size};

verus! {

broadcast use vstd::std_specs::vec::group_vec_axioms;

/// Outline of a painted or clipped region, relative to a node's area.
#[derive(Debug, Clone, Copy, PartialEq, Eq, Structural)]
pub enum ShapeKind {
    Rectangle,
    Rounded { top_start: i64, top_end: i64, bottom_start: i64, bottom_end: i64 },
    Circle,
}

/// One painting operation, parameterized by the node area it is applied to.
#[derive(Debug, Clone, Copy, PartialEq, Eq, Structural)]
pub enum Paint {
    /// Fill the node's area with a color.
    Fill(Color),
    /// Stroke a shape along the node's area, inset by half the stroke width.
    Stroke { width: i64, color: Color, shape: ShapeKind },
    /// Intersect the clip region with a shape over the node's area.
    ClipPush(ShapeKind),
    /// Restore the clip region saved by the matching `ClipPush`.
    ClipPop,
    /// Paint shaped text at the node's origin.
    Text(Color),
}

/// One step of a draw node's drawing sequence.
#[derive(Debug, Clone, Copy, PartialEq, Eq, Structural)]
pub enum DrawStep {
    /// Record one painting operation on the drawing surface.
    Emit(Paint),
    /// Toggle whether structural children draw automatically afterwards.
    SetContentDraw(bool),
    /// Draw the structural children now, at this point of the sequence.
    DrawContent,
}

/// One recorded command on the drawing surface.
#[derive(Debug, Clone, Copy, PartialEq, Eq, Structural)]
pub struct DrawCmd {
    pub paint: Paint,
    pub area: Rect,
}

/// Measurement behavior of a layout node.
#[derive(Debug, Clone, Copy, PartialEq, Eq, Structural)]
pub enum MeasurePolicy {
    /// Return the given size clamped into the constraints.
    Fixed(Size),
    /// Return the minimum size the constraints allow.
    MinSize,
    /// Stack the children vertically: each child measured under loose
    /// constraints, placed below the previous one; the stack is as wide as
    /// its widest child.
    Column,
    /// Measure the single child under constraints shrunk by the padding,
    /// place it at the top-start inset, and report the padded size, clamped.
    Padding { start: i64, end: i64, top: i64, bottom: i64 },
    /// Fill the available space on the chosen axes: the single child is
    /// measured under constraints tightened to the maximum on those axes.
    Fill { horizontal: bool, vertical: bool },
    /// Reserve a frame of the given width around the single child and
    /// report the child's size grown by twice the width, unclamped.
    Frame { width: i64 },
}

/// Measurement behavior of a subcompose layout node, working through the
/// node's slot registry.
#[derive(Debug)]
pub enum ComposePolicy {
    /// Realize up to `count` items, one slot per index, stacking them
    /// vertically and stopping once the accumulated height reaches the
    /// incoming maximum height.
    LazyColumn { count: usize, item: Vec<Template> },
    /// Measure the content loosely, then re-compose it with the minimum
    /// width raised to the widest measured child, stacking the results.
    TwoPass { content: Vec<Template> },
}

/// A declaration of one node and its content, carried across passes.
///
/// The handle stands for the identity of the supplied behavior: declaring
/// the same handle again leaves the node untouched, a different handle
/// replaces the behavior and dirties the node.
#[derive(Debug)]
#[allow(inconsistent_fields)]
pub enum Template {
    /// A layout node: measures itself with `policy`.
    Layout { handle: u64, policy: MeasurePolicy, content: Vec<Template> },
    /// A subcompose layout node: owns a slot registry and realizes content
    /// lazily while measuring.
    SubcomposeLayout { handle: u64, policy: ComposePolicy },
    /// A draw node: runs `steps` when painted; measures as its single child.
    Draw { handle: u64, steps: Vec<DrawStep>, content: Vec<Template> },
}

/// Declares a layout node measured by `policy` over `content`.
pub fn layout(handle: u64, policy: MeasurePolicy, content: Vec<Template>) -> (t: Template)
    ensures
        t == (Template::Layout { handle, policy, content }),
{
    Template::Layout { handle, policy, content }
}

/// Declares a subcompose layout node measured by `policy`.
pub fn subcompose_layout(handle: u64, policy: ComposePolicy) -> (t: Template)
    ensures
        t == (Template::SubcomposeLayout { handle, policy }),
{
    Template::SubcomposeLayout { handle, policy }
}

/// Declares a draw node running `steps` over `content`.
pub fn draw(handle: u64, steps: Vec<DrawStep>, content: Vec<Template>) -> (t: Template)
    ensures
        t == (Template::Draw { handle, steps, content }),
{
    Template::Draw { handle, steps, content }
}

/// How many `DrawContent` steps the sequence holds.
pub open spec fn content_draw_count(steps: Seq<DrawStep>) -> int
    decreases steps.len(),
{
    if steps.len() == 0 {
        0
    } else {
        content_draw_count(steps.drop_last()) + if steps.last() is DrawContent {
            1int
        } else {
            0int
        }
    }
}


/// The content-draw count is never negative.
pub proof fn lemma_count_nonneg(steps: Seq<DrawStep>)
    ensures
        content_draw_count(steps) >= 0,
    decreases steps.len(),
{
    if steps.len() > 0 {
        lemma_count_nonneg(steps.drop_last());
    }
}

/// The steps before the first explicit content draw: the part of the
/// sequence that always runs before any descendant paints.
pub open spec fn steps_before_content(steps: Seq<DrawStep>) -> Seq<DrawStep>
    decreases steps.len(),
{
    if steps.len() == 0 {
        steps
    } else if steps[0] is DrawContent {
        Seq::empty()
    } else {
        seq![steps[0]] + steps_before_content(steps.subrange(1, steps.len() as int))
    }
}

/// A prefix without a content draw, ending at one (or at the sequence's
/// end), is exactly the before-content part.
pub proof fn lemma_steps_before_content(steps: Seq<DrawStep>, k: int)
    requires
        0 <= k <= steps.len(),
        content_draw_count(steps.subrange(0, k)) == 0,
        k < steps.len() ==> steps[k] is DrawContent,
        k == steps.len() ==> content_draw_count(steps) == 0,
    ensures
        steps_before_content(steps) == steps.subrange(0, k),
    decreases steps.len(),
{
    if steps.len() == 0 {
        assert(steps.subrange(0, k) =~= steps);
    } else if k == 0 {
        assert(steps.subrange(0, 0) =~= Seq::<DrawStep>::empty());
        assert(steps[0] is DrawContent);
    } else {
        let tail = steps.subrange(1, steps.len() as int);
        assert(!(steps[0] is DrawContent)) by {
            lemma_count_prefix_zero(steps.subrange(0, k), 0);
        }
        assert(content_draw_count(tail.subrange(0, k - 1)) == 0) by {
            lemma_count_split(steps.subrange(0, k));
            assert(steps.subrange(0, k).subrange(1, k) =~= steps.subrange(1, k));
            assert(tail.subrange(0, k - 1) =~= steps.subrange(1, k));
            lemma_count_nonneg(steps.subrange(1, k));
        }
        if k < steps.len() {
            assert(tail[k - 1] == steps[k]);
        } else {
            assert(content_draw_count(tail) == 0) by {
                lemma_count_split(steps);
            }
        }
        lemma_steps_before_content(tail, k - 1);
        assert(steps_before_content(steps) == seq![steps[0]] + tail.subrange(0, k - 1));
        assert(seq![steps[0]] + tail.subrange(0, k - 1) =~= steps.subrange(0, k));
    }
}

/// A sequence with no content draws has none at any position.
pub proof fn lemma_count_prefix_zero(steps: Seq<DrawStep>, j: int)
    requires
        content_draw_count(steps) == 0,
        0 <= j < steps.len(),
    ensures
        !(steps[j] is DrawContent),
    decreases steps.len(),
{
    lemma_count_nonneg(steps.drop_last());
    if j == steps.len() - 1 {
    } else {
        lemma_count_prefix_zero(steps.drop_last(), j);
        assert(steps.drop_last()[j] == steps[j]);
    }
}

/// The content-draw count splits around the first step.
pub proof fn lemma_count_split(steps: Seq<DrawStep>)
    requires
        steps.len() > 0,
    ensures
        content_draw_count(steps) == (if steps[0] is DrawContent {
            1int
        } else {
            0int
        }) + content_draw_count(steps.subrange(1, steps.len() as int)),
    decreases steps.len(),
{
    let tail = steps.subrange(1, steps.len() as int);
    if steps.len() == 1 {
        assert(tail =~= Seq::<DrawStep>::empty());
        assert(steps.drop_last() =~= Seq::<DrawStep>::empty());
    } else {
        lemma_count_split(steps.drop_last());
        assert(steps.drop_last().subrange(1, steps.drop_last().len() as int) =~= tail.drop_last());
        assert(steps.drop_last()[0] == steps[0]);
        assert(tail.last() == steps.last());
    }
}

/// The steps after the first explicit content draw: the part of the
/// sequence that always runs after the descendants painted.
pub open spec fn steps_after_content(steps: Seq<DrawStep>) -> Seq<DrawStep>
    decreases steps.len(),
{
    if steps.len() == 0 {
        steps
    } else if steps[0] is DrawContent {
        steps.subrange(1, steps.len() as int)
    } else {
        steps_after_content(steps.subrange(1, steps.len() as int))
    }
}

/// A prefix without a content draw, ending at one, leaves exactly the
/// rest as the after-content part.
pub proof fn lemma_steps_after_content(steps: Seq<DrawStep>, k: int)
    requires
        0 <= k < steps.len(),
        content_draw_count(steps.subrange(0, k)) == 0,
        steps[k] is DrawContent,
    ensures
        steps_after_content(steps) == steps.subrange(k + 1, steps.len() as int),
    decreases steps.len(),
{
    if k == 0 {
        assert(steps[0] is DrawContent);
    } else {
        let tail = steps.subrange(1, steps.len() as int);
        assert(!(steps[0] is DrawContent)) by {
            lemma_count_prefix_zero(steps.subrange(0, k), 0);
        }
        assert(content_draw_count(tail.subrange(0, k - 1)) == 0) by {
            lemma_count_split(steps.subrange(0, k));
            assert(steps.subrange(0, k).subrange(1, k) =~= steps.subrange(1, k));
            assert(tail.subrange(0, k - 1) =~= steps.subrange(1, k));
            lemma_count_nonneg(steps.subrange(1, k));
        }
        assert(tail[k - 1] == steps[k]);
        lemma_steps_after_content(tail, k - 1);
        assert(tail.subrange(k, tail.len() as int) =~= steps.subrange(k + 1, steps.len() as int));
    }
}

/// The content-draw flag after the sequence ran: the last toggle wins, and
/// it defaults to true.
pub open spec fn final_content_flag(steps: Seq<DrawStep>) -> bool
    decreases steps.len(),
{
    if steps.len() == 0 {
        true
    } else {
        match steps.last() {
            DrawStep::SetContentDraw(b) => b,
            _ => final_content_flag(steps.drop_last()),
        }
    }
}

/// The area a paint applies to: a stroke is inset by half its width and
/// shrunk by the whole of it, a negative width counting as zero;
/// everything else covers the node's area as it stands.
pub open spec fn spec_paint_area(p: Paint, area: Rect) -> Rect {
    match p {
        Paint::Stroke { width, .. } => {
            let w = if width < 0 {
                0
            } else {
                width as int
            };
            Rect {
                origin: crate::geometry::Point {
                    x: crate::num::spec_sat_add(area.origin.x as int, w / 2) as i64,
                    y: crate::num::spec_sat_add(area.origin.y as int, w / 2) as i64,
                },
                size: Size {
                    width: crate::num::spec_sat_add(area.size.width as int, -w) as i64,
                    height: crate::num::spec_sat_add(area.size.height as int, -w) as i64,
                },
            }
        },
        _ => area,
    }
}

/// The command recorded for one paint over a node area.
pub open spec fn spec_emit(p: Paint, area: Rect) -> DrawCmd {
    DrawCmd { paint: p, area: spec_paint_area(p, area) }
}

/// The commands a step sequence records itself, in order, over one node
/// area; children's commands are not included.
pub open spec fn spec_emits(steps: Seq<DrawStep>, area: Rect) -> Seq<DrawCmd>
    decreases steps.len(),
{
    if steps.len() == 0 {
        Seq::empty()
    } else {
        spec_emits(steps.drop_last(), area) + (match steps.last() {
            DrawStep::Emit(p) => seq![spec_emit(p, area)],
            _ => Seq::empty(),
        })
    }
}

/// Every stroke in the sequence has a nonnegative width.
pub open spec fn steps_wf(steps: Seq<DrawStep>) -> bool {
    forall|k: int|
        0 <= k < steps.len() ==> (#[trigger] steps[k] matches DrawStep::Emit(
            Paint::Stroke { width, .. },
        ) ==> width >= 0)
}

/// Arity the measurement policies demand of a node's structural children.
pub open spec fn policy_arity_ok(policy: MeasurePolicy, n_children: int) -> bool {
    match policy {
        MeasurePolicy::Padding { .. } => n_children >= 1,
        MeasurePolicy::Fill { .. } => n_children >= 1,
        MeasurePolicy::Frame { width } => n_children >= 1 && width >= 0,
        _ => true,
    }
}

/// A template that may stand inside a nested instance: it opens no further
/// slot registry of its own.
pub open spec fn template_basic(t: Template) -> bool
    decreases t,
{
    match t {
        Template::Layout { content, .. } => forall|i: int|
            0 <= i < content@.len() ==> template_basic(#[trigger] content@[i]),
        Template::SubcomposeLayout { .. } => false,
        Template::Draw { content, .. } => forall|i: int|
            0 <= i < content@.len() ==> template_basic(#[trigger] content@[i]),
    }
}

/// All templates of the sequence are basic.
pub open spec fn templates_basic(ts: Seq<Template>) -> bool
    decreases ts,
{
    forall|i: int| 0 <= i < ts.len() ==> template_basic(#[trigger] ts[i])
}

/// A well-formed template: policies find the children they demand, draw
/// nodes have content to measure as, stroke widths are nonnegative, and
/// slot content is basic.
pub open spec fn template_wf(t: Template) -> bool
    decreases t,
{
    match t {
        Template::Layout { policy, content, .. } => policy_arity_ok(policy, content@.len() as int)
            && forall|i: int| 0 <= i < content@.len() ==> template_wf(#[trigger] content@[i]),
        Template::SubcomposeLayout { policy, .. } => compose_policy_wf(policy),
        Template::Draw { steps, content, .. } => steps_wf(steps@) && content@.len() >= 1
            && forall|i: int| 0 <= i < content@.len() ==> template_wf(#[trigger] content@[i]),
    }
}

/// All templates of the sequence are well-formed.
pub open spec fn templates_wf(ts: Seq<Template>) -> bool
    decreases ts,
{
    forall|i: int| 0 <= i < ts.len() ==> template_wf(#[trigger] ts[i])
}

/// A well-formed compose policy: its slot content is well-formed and basic.
pub open spec fn compose_policy_wf(p: ComposePolicy) -> bool
    decreases p,
{
    match p {
        ComposePolicy::LazyColumn { item, .. } => templates_wf(item@) && templates_basic(item@),
        ComposePolicy::TwoPass { content } => content@.len() >= 1 && templates_wf(content@)
            && templates_basic(content@),
    }
}

/// Structural equality of templates: same variants, handles, policies and
/// step sequences, contents compared element by element.
pub open spec fn teq(a: Template, b: Template) -> bool
    decreases a,
{
    match (a, b) {
        (
            Template::Layout { handle: h1, policy: p1, content: c1 },
            Template::Layout { handle: h2, policy: p2, content: c2 },
        ) => h1 == h2 && p1 == p2 && teqs(c1@, c2@),
        (
            Template::SubcomposeLayout { handle: h1, policy: p1 },
            Template::SubcomposeLayout { handle: h2, policy: p2 },
        ) => h1 == h2 && ceq(p1, p2),
        (
            Template::Draw { handle: h1, steps: s1, content: c1 },
            Template::Draw { handle: h2, steps: s2, content: c2 },
        ) => h1 == h2 && s1@ == s2@ && teqs(c1@, c2@),
        _ => false,
    }
}

/// Pointwise structural equality of template sequences.
pub open spec fn teqs(a: Seq<Template>, b: Seq<Template>) -> bool
    decreases a,
{
    a.len() == b.len() && forall|i: int| 0 <= i < a.len() ==> teq(#[trigger] a[i], b[i])
}

/// Structural equality of compose policies.
pub open spec fn ceq(a: ComposePolicy, b: ComposePolicy) -> bool
    decreases a,
{
    match (a, b) {
        (
            ComposePolicy::LazyColumn { count: n1, item: i1 },
            ComposePolicy::LazyColumn { count: n2, item: i2 },
        ) => n1 == n2 && teqs(i1@, i2@),
        (ComposePolicy::TwoPass { content: c1 }, ComposePolicy::TwoPass { content: c2 }) => teqs(
            c1@,
            c2@,
        ),
        _ => false,
    }
}

/// Copies a step sequence.
pub fn copy_steps(steps: &Vec<DrawStep>) -> (r: Vec<DrawStep>)
    ensures
        r@ == steps@,
{
    let mut r: Vec<DrawStep> = Vec::new();
    let mut k: usize = 0;
    while k < steps.len()
        invariant
            k <= steps@.len(),
            r@ == steps@.subrange(0, k as int),
        decreases steps@.len() - k,
    {
        r.push(steps[k]);
        k += 1;
    }
    proof {
        assert(steps@.subrange(0, steps@.len() as int) =~= steps@);
    }
    r
}

/// Copies a template, content and all.
pub fn clone_template(t: &Template) -> (r: Template)
    ensures
        teq(r, *t),
    decreases *t,
{
    let r = match t {
        Template::Layout { handle, policy, content } => Template::Layout {
            handle: *handle,
            policy: *policy,
            content: clone_templates(content),
        },
        Template::SubcomposeLayout { handle, policy } => Template::SubcomposeLayout {
            handle: *handle,
            policy: clone_compose_policy(policy),
        },
        Template::Draw { handle, steps, content } => Template::Draw {
            handle: *handle,
            steps: copy_steps(steps),
            content: clone_templates(content),
        },
    };
    r
}

/// Copies a template sequence.
pub fn clone_templates(ts: &Vec<Template>) -> (r: Vec<Template>)
    ensures
        teqs(r@, ts@),
    decreases *ts,
{
    let mut r: Vec<Template> = Vec::new();
    let mut k: usize = 0;
    while k < ts.len()
        invariant
            k <= ts@.len(),
            r@.len() == k,
            forall|i: int| 0 <= i < k ==> teq(#[trigger] r@[i], ts@[i]),
        decreases ts@.len() - k,
    {
        r.push(clone_template(&ts[k]));
        k += 1;
    }
    r
}

/// Copies a compose policy, slot content and all.
pub fn clone_compose_policy(p: &ComposePolicy) -> (r: ComposePolicy)
    ensures
        ceq(r, *p),
    decreases *p,
{
    let r = match p {
        ComposePolicy::LazyColumn { count, item } => ComposePolicy::LazyColumn {
            count: *count,
            item: clone_templates(item),
        },
        ComposePolicy::TwoPass { content } => ComposePolicy::TwoPass {
            content: clone_templates(content),
        },
    };
    r
}

/// The slot content of a compose policy is basic.
pub open spec fn policy_items_basic(p: ComposePolicy) -> bool {
    match p {
        ComposePolicy::LazyColumn { item, .. } => templates_basic(item@),
        ComposePolicy::TwoPass { content } => templates_basic(content@),
    }
}

/// Structurally equal templates are basic together.
pub proof fn lemma_teq_basic(a: Template, b: Template)
    requires
        teq(a, b),
    ensures
        template_basic(a) == template_basic(b),
    decreases a,
{
    match (a, b) {
        (Template::Layout { content: c1, .. }, Template::Layout { content: c2, .. }) => {
            lemma_teqs_basic(c1@, c2@);
        },
        (Template::Draw { content: c1, .. }, Template::Draw { content: c2, .. }) => {
            lemma_teqs_basic(c1@, c2@);
        },
        _ => {},
    }
}

/// Pointwise structurally equal template sequences are basic together.
pub proof fn lemma_teqs_basic(a: Seq<Template>, b: Seq<Template>)
    requires
        teqs(a, b),
    ensures
        templates_basic(a) == templates_basic(b),
    decreases a,
{
    if templates_basic(a) {
        assert forall|i: int| 0 <= i < b.len() implies template_basic(#[trigger] b[i]) by {
            lemma_teq_basic(a[i], b[i]);
        }
    }
    if templates_basic(b) {
        assert forall|i: int| 0 <= i < a.len() implies template_basic(#[trigger] a[i]) by {
            lemma_teq_basic(a[i], b[i]);
        }
    }
}

/// Structurally equal compose policies have basic items together.
pub proof fn lemma_ceq_items_basic(a: ComposePolicy, b: ComposePolicy)
    requires
        ceq(a, b),
    ensures
        policy_items_basic(a) == policy_items_basic(b),
    decreases a,
{
    match (a, b) {
        (ComposePolicy::LazyColumn { item: i1, .. }, ComposePolicy::LazyColumn { item: i2, .. }) => {
            lemma_teqs_basic(i1@, i2@);
        },
        (ComposePolicy::TwoPass { content: c1 }, ComposePolicy::TwoPass { content: c2 }) => {
            lemma_teqs_basic(c1@, c2@);
        },
        _ => {},
    }
}

} // verus!
