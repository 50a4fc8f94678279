//! Thin builders over the core: the declarations the component layer
//! produces, as templates.

use vstd::prelude::*;

use crate::color::Color;
use crate::geometry::Size;
use crate::policy::{
    ComposePolicy, DrawStep, MeasurePolicy, Paint, ShapeKind, Template,
};

verus! {

/// A container sized to the minimum the constraints allow.
pub fn container(handle: u64, content: Vec<Template>) -> (t: Template)
    ensures
        t == (Template::Layout { handle, policy: MeasurePolicy::MinSize, content }),
{
    Template::Layout { handle, policy: MeasurePolicy::MinSize, content }
}

/// A vertical stack of its children.
pub fn vertical_stack(handle: u64, content: Vec<Template>) -> (t: Template)
    ensures
        t == (Template::Layout { handle, policy: MeasurePolicy::Column, content }),
{
    Template::Layout { handle, policy: MeasurePolicy::Column, content }
}

/// Pads its content by the four insets.
pub fn padding(handle: u64, start: i64, end: i64, top: i64, bottom: i64, content: Vec<Template>) -> (t:
    Template)
    ensures
        t == (Template::Layout {
            handle,
            policy: MeasurePolicy::Padding { start, end, top, bottom },
            content,
        }),
{
    Template::Layout { handle, policy: MeasurePolicy::Padding { start, end, top, bottom }, content }
}

/// Pads its content by the same inset on every side.
pub fn padding_all(handle: u64, value: i64, content: Vec<Template>) -> (t: Template)
    ensures
        t == (Template::Layout {
            handle,
            policy: MeasurePolicy::Padding { start: value, end: value, top: value, bottom: value },
            content,
        }),
{
    Template::Layout {
        handle,
        policy: MeasurePolicy::Padding { start: value, end: value, top: value, bottom: value },
        content,
    }
}

/// Fills the available space on both axes.
pub fn fill_max_size(handle: u64, content: Vec<Template>) -> (t: Template)
    ensures
        t == (Template::Layout {
            handle,
            policy: MeasurePolicy::Fill { horizontal: true, vertical: true },
            content,
        }),
{
    Template::Layout {
        handle,
        policy: MeasurePolicy::Fill { horizontal: true, vertical: true },
        content,
    }
}

/// Fills the available width.
pub fn fill_max_width(handle: u64, content: Vec<Template>) -> (t: Template)
    ensures
        t == (Template::Layout {
            handle,
            policy: MeasurePolicy::Fill { horizontal: true, vertical: false },
            content,
        }),
{
    Template::Layout {
        handle,
        policy: MeasurePolicy::Fill { horizontal: true, vertical: false },
        content,
    }
}

/// Fills the available height.
pub fn fill_max_height(handle: u64, content: Vec<Template>) -> (t: Template)
    ensures
        t == (Template::Layout {
            handle,
            policy: MeasurePolicy::Fill { horizontal: false, vertical: true },
            content,
        }),
{
    Template::Layout {
        handle,
        policy: MeasurePolicy::Fill { horizontal: false, vertical: true },
        content,
    }
}

/// Fills its area with a color before the content draws.
pub fn background(handle: u64, color: Color, content: Vec<Template>) -> (t: Template)
    ensures
        t matches Template::Draw { handle: h, steps, content: c } && h == handle && steps@ == seq![
            DrawStep::Emit(Paint::Fill(color)),
        ] && c == content,
{
    let steps: Vec<DrawStep> = vec![DrawStep::Emit(Paint::Fill(color))];
    proof {
        assert(steps@ =~= seq![DrawStep::Emit(Paint::Fill(color))]);
    }
    Template::Draw { handle, steps, content }
}

/// Clips the content to a shape over its area: the clip is pushed, the
/// content drawn explicitly, and the clip restored.
pub fn clip(handle: u64, shape: ShapeKind, content: Vec<Template>) -> (t: Template)
    ensures
        t matches Template::Draw { handle: h, steps, content: c } && h == handle && steps@ == seq![
            DrawStep::SetContentDraw(false),
            DrawStep::Emit(Paint::ClipPush(shape)),
            DrawStep::DrawContent,
            DrawStep::Emit(Paint::ClipPop),
        ] && c == content,
{
    let steps: Vec<DrawStep> = vec![
        DrawStep::SetContentDraw(false),
        DrawStep::Emit(Paint::ClipPush(shape)),
        DrawStep::DrawContent,
        DrawStep::Emit(Paint::ClipPop),
    ];
    proof {
        assert(steps@ =~= seq![
            DrawStep::SetContentDraw(false),
            DrawStep::Emit(Paint::ClipPush(shape)),
            DrawStep::DrawContent,
            DrawStep::Emit(Paint::ClipPop),
        ]);
    }
    Template::Draw { handle, steps, content }
}

/// Strokes a border around the content after it draws: the content is
/// framed in by the border width, drawn explicitly, and the stroke is
/// painted over the frame.
pub fn border(handle: u64, width: i64, color: Color, shape: ShapeKind, content: Vec<Template>) -> (t:
    Template)
    ensures
        t matches Template::Draw { handle: h, steps, content: c } && h == handle && steps@ == seq![
            DrawStep::SetContentDraw(false),
            DrawStep::DrawContent,
            DrawStep::Emit(Paint::Stroke { width, color, shape }),
        ] && c@ == seq![
            Template::Layout {
                handle,
                policy: MeasurePolicy::Frame { width },
                content,
            },
        ],
{
    let steps: Vec<DrawStep> = vec![
        DrawStep::SetContentDraw(false),
        DrawStep::DrawContent,
        DrawStep::Emit(Paint::Stroke { width, color, shape }),
    ];
    let inner: Vec<Template> = vec![
        Template::Layout { handle, policy: MeasurePolicy::Frame { width }, content },
    ];
    proof {
        assert(steps@ =~= seq![
            DrawStep::SetContentDraw(false),
            DrawStep::DrawContent,
            DrawStep::Emit(Paint::Stroke { width, color, shape }),
        ]);
    }
    Template::Draw { handle, steps, content: inner }
}

/// A text leaf: measures as the pre-shaped text extent and paints the
/// text over its area.
pub fn text(handle: u64, extent: Size, color: Color) -> (t: Template)
    ensures
        t matches Template::Draw { handle: h, steps, content: c } && h == handle && steps@ == seq![
            DrawStep::Emit(Paint::Text(color)),
        ] && c@.len() == 1 && (c@[0] matches Template::Layout {
            handle: h2,
            policy: p2,
            content: c2,
        } && h2 == handle && p2 == MeasurePolicy::Fixed(extent) && c2@.len() == 0),
{
    let steps: Vec<DrawStep> = vec![DrawStep::Emit(Paint::Text(color))];
    let inner: Vec<Template> = vec![
        Template::Layout { handle, policy: MeasurePolicy::Fixed(extent), content: Vec::new() },
    ];
    proof {
        assert(steps@ =~= seq![DrawStep::Emit(Paint::Text(color))]);
    }
    Template::Draw { handle, steps, content: inner }
}

/// A lazy vertical list: realizes up to `count` items through slots, one
/// per index, stopping once the viewport height is covered.
pub fn lazy_column(handle: u64, count: usize, item: Vec<Template>) -> (t: Template)
    ensures
        t matches Template::SubcomposeLayout { handle: h, policy } && h == handle && (policy
            matches ComposePolicy::LazyColumn { count: n, item: i } && n == count && i == item),
{
    Template::SubcomposeLayout { handle, policy: ComposePolicy::LazyColumn { count, item } }
}

} // verus!
