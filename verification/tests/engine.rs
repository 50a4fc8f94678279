use rumpose::{
    background, border, clip, fill_max_size, layout, lazy_column, padding, subcompose_layout,
    text, vertical_stack, Color, ComposePolicy, DrawStep, Engine, MeasurePolicy, Paint, Point,
    ShapeKind, Size, Template,
};

fn fixed(handle: u64, w: i64, h: i64) -> Template {
    layout(handle, MeasurePolicy::Fixed(Size::new(w, h)), vec![])
}

#[test]
fn single_node_measures_to_its_clamped_size() {
    // A single layout node returning apply(Size(50, 50)) under
    // min = (0, 0), max = (200, 200) places as (50, 50) at the origin.
    let tpl = fixed(1, 50, 50);
    let mut e = Engine::new(200, 200, &tpl);
    let size = e.compute_layout();
    assert_eq!(size, Size::new(50, 50));
    let area = e.get_area(0);
    assert_eq!(area.origin, Point::new(0, 0));
    assert_eq!(area.size, Size::new(50, 50));
}

#[test]
fn vertical_stack_places_children_below_each_other() {
    // Two children of intrinsic sizes (40, 20) and (40, 30): the first
    // sits at (0, 0), the second at (0, 20), and the stack is (40, 50).
    let tpl = vertical_stack(1, vec![fixed(2, 40, 20), fixed(3, 40, 30)]);
    let mut e = Engine::new(1000, 1000, &tpl);
    let size = e.compute_layout();
    assert_eq!(size, Size::new(40, 50));
    assert_eq!(e.get_area(1).origin, Point::new(0, 0));
    assert_eq!(e.get_area(1).size, Size::new(40, 20));
    assert_eq!(e.get_area(2).origin, Point::new(0, 20));
    assert_eq!(e.get_area(2).size, Size::new(40, 30));
}

#[test]
fn second_layout_pass_recomputes_nothing() {
    // Computing the layout twice with no intervening change yields the
    // same placement rectangles, and the second pass runs no measurement
    // behavior at all.
    let tpl = vertical_stack(1, vec![fixed(2, 40, 20), fixed(3, 40, 30)]);
    let mut e = Engine::new(1000, 1000, &tpl);
    let first = e.compute_layout();
    let areas = (e.get_area(0), e.get_area(1), e.get_area(2));
    let runs = (e.measure_runs(0), e.measure_runs(1), e.measure_runs(2));
    let second = e.compute_layout();
    assert_eq!(first, second);
    assert_eq!(areas, (e.get_area(0), e.get_area(1), e.get_area(2)));
    assert_eq!(runs, (e.measure_runs(0), e.measure_runs(1), e.measure_runs(2)));
    assert_eq!(runs.0, 1);
    assert_eq!(runs.1, 1);
}

#[test]
fn recompose_with_same_handles_changes_nothing() {
    let tpl = vertical_stack(1, vec![fixed(2, 40, 20), fixed(3, 40, 30)]);
    let mut e = Engine::new(1000, 1000, &tpl);
    e.compute_layout();
    let runs = e.measure_runs(0);
    let again = vertical_stack(1, vec![fixed(2, 40, 20), fixed(3, 40, 30)]);
    e.recompose(&again);
    e.compute_layout();
    assert_eq!(e.measure_runs(0), runs);
    assert!(!e.tree.nodes[0].layout_dirty);
}

#[test]
fn recompose_with_changed_root_handle_remeasures_memoized() {
    let tpl = vertical_stack(1, vec![fixed(2, 40, 20), fixed(3, 40, 30)]);
    let mut e = Engine::new(1000, 1000, &tpl);
    e.compute_layout();
    let changed = vertical_stack(9, vec![fixed(2, 40, 20), fixed(3, 40, 30)]);
    e.recompose(&changed);
    assert!(e.tree.nodes[0].layout_dirty);
    let size = e.compute_layout();
    // The stack re-ran; the clean children handed back their cached sizes.
    assert_eq!(size, Size::new(40, 50));
    assert_eq!(e.measure_runs(0), 2);
    assert_eq!(e.measure_runs(1), 1);
    assert_eq!(e.measure_runs(2), 1);
}

#[test]
fn mark_dirty_forces_the_whole_subtree() {
    let tpl = vertical_stack(1, vec![fixed(2, 40, 20), fixed(3, 40, 30)]);
    let mut e = Engine::new(1000, 1000, &tpl);
    e.compute_layout();
    e.draw_all();
    e.mark_dirty(0);
    assert!(e.tree.nodes[0].layout_dirty);
    assert!(e.tree.nodes[1].layout_dirty);
    assert!(e.tree.nodes[2].layout_dirty);
    assert!(e.tree.nodes[0].render_dirty);
    let size = e.compute_layout();
    assert_eq!(size, Size::new(40, 50));
    assert_eq!(e.measure_runs(0), 2);
    assert_eq!(e.measure_runs(1), 2);
}

#[test]
fn lazy_column_stops_at_the_viewport() {
    // A virtualization slot over 1000 logical items of height 10, under a
    // viewport of maximum height 256, stops once the accumulated height
    // reaches 256: 26 items composed, the rest never materialized.
    let tpl = lazy_column(1, 1000, vec![fixed(2, 40, 10)]);
    let mut e = Engine::new(100, 256, &tpl);
    let size = e.compute_layout();
    assert_eq!(e.slot_count(0), 26);
    assert_eq!(size, Size::new(40, 256));
}

#[test]
fn lazy_column_reuses_its_slots_across_passes() {
    // Composing with the same slot keys across two outer measurement
    // passes, with no external change, rebuilds nothing: same slot count,
    // same instance contents.
    let tpl = lazy_column(1, 1000, vec![fixed(2, 40, 10)]);
    let mut e = Engine::new(100, 256, &tpl);
    e.compute_layout();
    let slots = e.slot_count(0);
    let nodes_in_first_slot = e.registries[0].entries[0].instance.tree.nodes.len();
    e.mark_dirty(0);
    e.compute_layout();
    assert_eq!(e.slot_count(0), slots);
    assert_eq!(
        e.registries[0].entries[0].instance.tree.nodes.len(),
        nodes_in_first_slot
    );
}

#[test]
fn background_fills_its_area_then_draws_content() {
    let red = Color::from_rgb(255, 0, 0);
    let tpl = background(1, red, vec![fixed(2, 10, 10)]);
    let mut e = Engine::new(100, 100, &tpl);
    e.compute_layout();
    e.draw_all();
    assert_eq!(e.log_len(), 1);
    let cmd = e.log_get(0);
    assert_eq!(cmd.paint, Paint::Fill(red));
    assert_eq!(cmd.area.origin, Point::new(0, 0));
    assert_eq!(cmd.area.size, Size::new(10, 10));
}

#[test]
fn clean_frame_paints_nothing_new() {
    let red = Color::from_rgb(255, 0, 0);
    let tpl = background(1, red, vec![fixed(2, 10, 10)]);
    let mut e = Engine::new(100, 100, &tpl);
    e.compute_layout();
    e.draw_all();
    let len = e.log_len();
    e.draw_all();
    assert_eq!(e.log_len(), len);
}

#[test]
fn suppressed_content_never_draws_descendants() {
    // A draw node that disables automatic content drawing and never calls
    // it explicitly leaves its descendants unpainted.
    let red = Color::from_rgb(255, 0, 0);
    let steps = vec![DrawStep::SetContentDraw(false)];
    let tpl = rumpose::draw(
        1,
        steps,
        vec![background(2, red, vec![fixed(3, 10, 10)])],
    );
    let mut e = Engine::new(100, 100, &tpl);
    e.compute_layout();
    e.draw_all();
    assert_eq!(e.log_len(), 0);
    assert_eq!(e.draw_runs(0), 1);
    assert_eq!(e.draw_runs(1), 0);
    assert!(e.tree.nodes[1].render_dirty);
}

#[test]
fn explicit_content_draws_descendants_exactly_once() {
    // A draw node that disables the automatic pass and calls the explicit
    // one exactly once draws its descendants exactly once, however often
    // the node itself is repainted.
    let red = Color::from_rgb(255, 0, 0);
    let steps = vec![DrawStep::SetContentDraw(false), DrawStep::DrawContent];
    let tpl = rumpose::draw(
        1,
        steps,
        vec![background(2, red, vec![fixed(3, 10, 10)])],
    );
    let mut e = Engine::new(100, 100, &tpl);
    e.compute_layout();
    e.draw_all();
    assert_eq!(e.draw_runs(0), 1);
    assert_eq!(e.draw_runs(1), 1);
    assert_eq!(e.log_len(), 1);
    // Repaint only the draw node itself: its content is clean and is not
    // painted again.
    e.tree.mark_render_dirty(0);
    e.draw_all();
    assert_eq!(e.draw_runs(0), 2);
    assert_eq!(e.draw_runs(1), 1);
    assert_eq!(e.log_len(), 1);
}

#[test]
fn padding_insets_the_child_and_grows_the_size() {
    let tpl = padding(1, 3, 4, 5, 6, vec![fixed(2, 10, 10)]);
    let mut e = Engine::new(100, 100, &tpl);
    let size = e.compute_layout();
    assert_eq!(size, Size::new(17, 21));
    assert_eq!(e.get_area(1).origin, Point::new(3, 5));
    assert_eq!(e.get_area(1).size, Size::new(10, 10));
}

#[test]
fn fill_max_size_tightens_to_the_bounds() {
    let tpl = fill_max_size(1, vec![fixed(2, 10, 10)]);
    let mut e = Engine::new(50, 60, &tpl);
    let size = e.compute_layout();
    assert_eq!(size, Size::new(50, 60));
    assert_eq!(e.get_area(1).size, Size::new(50, 60));
}

#[test]
fn border_frames_the_child_and_strokes_after_content() {
    let blue = Color::from_rgb(0, 0, 255);
    let tpl = border(1, 2, blue, ShapeKind::Rectangle, vec![fixed(2, 10, 10)]);
    let mut e = Engine::new(100, 100, &tpl);
    let size = e.compute_layout();
    assert_eq!(size, Size::new(14, 14));
    // The framed layout node moved its child in by the border width.
    assert_eq!(e.get_area(2).origin, Point::new(2, 2));
    e.draw_all();
    assert_eq!(e.log_len(), 1);
    let cmd = e.log_get(0);
    match cmd.paint {
        Paint::Stroke { width, color, shape } => {
            assert_eq!(width, 2);
            assert_eq!(color, blue);
            assert_eq!(shape, ShapeKind::Rectangle);
        }
        other => panic!("expected a stroke, got {:?}", other),
    }
    // The stroke runs along the area inset by half the width.
    assert_eq!(cmd.area.origin, Point::new(1, 1));
    assert_eq!(cmd.area.size, Size::new(12, 12));
}

#[test]
fn clip_pushes_and_pops_around_the_content() {
    let red = Color::from_rgb(255, 0, 0);
    let tpl = clip(
        1,
        ShapeKind::Circle,
        vec![background(2, red, vec![fixed(3, 10, 10)])],
    );
    let mut e = Engine::new(100, 100, &tpl);
    e.compute_layout();
    e.draw_all();
    assert_eq!(e.log_len(), 3);
    assert_eq!(e.log_get(0).paint, Paint::ClipPush(ShapeKind::Circle));
    assert_eq!(e.log_get(1).paint, Paint::Fill(red));
    assert_eq!(e.log_get(2).paint, Paint::ClipPop);
}

#[test]
fn text_measures_as_its_extent_and_paints_once() {
    let ink = Color::from_rgb(20, 20, 20);
    let tpl = text(1, Size::new(30, 12), ink);
    let mut e = Engine::new(100, 100, &tpl);
    let size = e.compute_layout();
    assert_eq!(size, Size::new(30, 12));
    e.draw_all();
    assert_eq!(e.log_len(), 1);
    assert_eq!(e.log_get(0).paint, Paint::Text(ink));
}

#[test]
fn two_pass_sizing_widens_to_the_widest_child() {
    // Probe loosely first, then re-compose with the minimum width raised
    // to the widest measured child: both children end up that wide.
    let tpl = subcompose_layout(
        1,
        ComposePolicy::TwoPass {
            content: vec![fixed(2, 40, 20), fixed(3, 30, 10)],
        },
    );
    let mut e = Engine::new(100, 100, &tpl);
    let size = e.compute_layout();
    assert_eq!(size, Size::new(40, 30));
    assert_eq!(e.slot_count(0), 1);
    let inst = &e.registries[0].entries[0].instance;
    // Children of the instance anchor sit below each other.
    let c1 = inst.tree.nodes[0].children[0];
    let c2 = inst.tree.nodes[0].children[1];
    assert_eq!(inst.tree.nodes[c1].area.size, Size::new(40, 20));
    assert_eq!(inst.tree.nodes[c2].area.size, Size::new(40, 10));
    assert_eq!(inst.tree.nodes[c1].area.origin, Point::new(0, 0));
    assert_eq!(inst.tree.nodes[c2].area.origin, Point::new(0, 20));
}

#[test]
fn place_moves_a_subtree_to_an_absolute_origin() {
    let tpl = vertical_stack(1, vec![fixed(2, 40, 20), fixed(3, 40, 30)]);
    let mut e = Engine::new(1000, 1000, &tpl);
    e.compute_layout();
    e.tree.place(0, 7, 9);
    assert_eq!(e.get_area(0).origin, Point::new(7, 9));
    assert_eq!(e.get_area(1).origin, Point::new(7, 9));
    assert_eq!(e.get_area(2).origin, Point::new(7, 29));
}

#[test]
fn place_relative_shifts_by_a_delta() {
    let tpl = vertical_stack(1, vec![fixed(2, 40, 20), fixed(3, 40, 30)]);
    let mut e = Engine::new(1000, 1000, &tpl);
    e.compute_layout();
    e.tree.place_relative(1, 5, 6);
    assert_eq!(e.get_area(0).origin, Point::new(0, 0));
    assert_eq!(e.get_area(1).origin, Point::new(5, 6));
    assert_eq!(e.get_area(2).origin, Point::new(0, 20));
}

#[test]
fn saturating_sums_stop_at_the_bounds() {
    assert_eq!(rumpose::sat_add(i64::MAX, 1), i64::MAX);
    assert_eq!(rumpose::sat_add(i64::MIN, -1), i64::MIN);
    assert_eq!(rumpose::sat_add(2, 3), 5);
    assert_eq!(rumpose::sat_sub(i64::MIN, 1), i64::MIN);
    assert_eq!(rumpose::sat_sub(i64::MAX, -1), i64::MAX);
    assert_eq!(rumpose::sat_sub(2, 3), -1);
}

#[test]
fn empty_stack_measures_to_the_minimum() {
    let tpl = vertical_stack(1, vec![]);
    let mut e = Engine::new(100, 100, &tpl);
    let size = e.compute_layout();
    assert_eq!(size, Size::new(0, 0));
}

#[test]
fn lazy_column_under_an_unbounded_viewport_realizes_everything() {
    let tpl = lazy_column(1, 5, vec![fixed(2, 40, 10)]);
    let mut e = Engine::new(100, rumpose::UNBOUNDED, &tpl);
    let size = e.compute_layout();
    assert_eq!(e.slot_count(0), 5);
    assert_eq!(size, Size::new(40, 50));
}

#[test]
fn subcompose_node_works_inside_a_stack() {
    let tpl = vertical_stack(
        1,
        vec![fixed(2, 10, 7), lazy_column(3, 4, vec![fixed(4, 20, 5)])],
    );
    let mut e = Engine::new(100, 1000, &tpl);
    let size = e.compute_layout();
    // The lazy node measures under loose stacking constraints, so all
    // four items are realized: 20 wide, 20 tall under the fixed child.
    assert_eq!(e.slot_count(2), 4);
    assert_eq!(size, Size::new(20, 27));
    assert_eq!(e.get_area(2).origin, Point::new(0, 7));
}

#[test]
fn container_takes_the_minimum_size() {
    let tpl = rumpose::container(1, vec![]);
    let mut e = Engine::new(50, 50, &tpl);
    assert_eq!(e.compute_layout(), Size::new(0, 0));
}

#[test]
fn fill_max_width_leaves_the_height_free() {
    let tpl = rumpose::fill_max_width(1, vec![fixed(2, 10, 10)]);
    let mut e = Engine::new(50, 60, &tpl);
    assert_eq!(e.compute_layout(), Size::new(50, 10));
}

#[test]
fn padding_clamps_into_the_incoming_box() {
    let tpl = padding(1, 8, 8, 8, 8, vec![fixed(2, 90, 90)]);
    let mut e = Engine::new(100, 100, &tpl);
    // The child fits 84 wide under the shrunk box; padded back out it
    // clamps to the canvas.
    assert_eq!(e.compute_layout(), Size::new(100, 100));
    assert_eq!(e.get_area(1).size, Size::new(84, 84));
    assert_eq!(e.get_area(1).origin, Point::new(8, 8));
}

#[test]
fn placement_routes_into_a_slot() {
    let tpl = lazy_column(1, 3, vec![fixed(2, 40, 10)]);
    let mut e = Engine::new(100, 100, &tpl);
    e.compute_layout();
    let inst_child = e.registries[0].entries[0].instance.tree.nodes[0].children[0];
    assert!(rumpose::slot_place(&mut e.registries[0], 0, inst_child, 5, 7));
    assert_eq!(
        e.registries[0].entries[0].instance.tree.nodes[inst_child].area.origin,
        Point::new(5, 7)
    );
    assert!(rumpose::slot_place_relative(&mut e.registries[0], 0, inst_child, 1, 2));
    assert_eq!(
        e.registries[0].entries[0].instance.tree.nodes[inst_child].area.origin,
        Point::new(6, 9)
    );
    // A slot requested before being created routes nothing and says so.
    assert!(!rumpose::slot_place(&mut e.registries[0], 99, 0, 1, 1));
    assert!(!rumpose::slot_place_relative(&mut e.registries[0], 99, 0, 1, 1));
}

#[test]
fn measurement_routes_into_a_slot() {
    let tpl = lazy_column(1, 2, vec![fixed(2, 40, 10)]);
    let mut e = Engine::new(100, 100, &tpl);
    e.compute_layout();
    let inst_child = e.registries[0].entries[0].instance.tree.nodes[0].children[0];
    // A clean child hands back its cached size whatever the box says.
    let cached = rumpose::slot_measure(
        &mut e.registries[0],
        0,
        inst_child,
        rumpose::Constraints::default(),
    );
    assert_eq!(cached, Some(Size::new(40, 10)));
    // A missing key measures nothing.
    assert_eq!(
        rumpose::slot_measure(&mut e.registries[0], 99, 0, rumpose::Constraints::default()),
        None
    );
}
