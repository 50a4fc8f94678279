//! Incremental layout-and-render core of a retained-mode UI engine.
//!
//! A node tree measures itself top-down under size constraints, places its
//! children, and draws itself into a command log, with dirty-bit memoization
//! and a subcomposition mechanism that materializes child subtrees lazily
//! during measurement (virtualization).

mod color;
mod components;
mod compose;
mod constraints;
mod engine;
mod geometry;
mod measure;
mod num;
mod policy;
mod render;
mod tree;

pub use color::Color;
pub use components::background;
pub use components::border;
pub use components::clip;
pub use components::vertical_stack;
pub use components::container;
pub use components::lazy_column;
pub use components::fill_max_height;
pub use components::fill_max_size;
pub use components::fill_max_width;
pub use components::padding;
pub use components::padding_all;
pub use components::text;
pub use compose::{
    behavior_from, built_from, handle_differs, handles_match, refreshed_from, updated_from,
    Instance, Registry, Slot,
};
pub use constraints::{spec_clamp, spec_floor_zero, Constraints, UNBOUNDED};
pub use engine::Engine;
pub use geometry::{Point, Rect, Size};
pub use measure::{
    column_measured, column_sized, compose_slot, measure_view, dirty_measure_ok, force_dirty, has_slot, instance_built,
    loose_box, result_measured, slot_results_measured,
    instance_refreshed, items_height, measured, placed_into, realized_prefix, run_lazy, slot_at, run_two_pass, slot_place,
    slot_measure, slot_place_relative, slot_results_ok, spec_bump, spec_fill_constraints, stack_height,
    stack_width, two_pass_sized,
};
pub use num::{sat_add, sat_sub, spec_sat_add, spec_sat_sub};
pub use policy::{
    clone_template, content_draw_count, draw, final_content_flag, layout, spec_emit, spec_emits,
    steps_after_content, steps_before_content, subcompose_layout, ComposePolicy, DrawCmd, DrawStep, MeasurePolicy,
    Paint, ShapeKind, Template,
};
pub use render::{
    children_drawn_once, emit_cmd, registry_forwarded, render_keeps, suppresses_content,
};
pub use tree::{Node, NodePhase, Tree};
