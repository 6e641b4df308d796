use cosmic_workspaces::geometry::{Point, Size};
use cosmic_workspaces::workspace_strip::{
    column_position, column_span, default_viewport, last_column, removal_shift, stepped_index,
    viewport_offset_for_index, ColumnGeometry,
};

const W: i32 = 1920;

#[test]
fn column_x_is_index_times_width() {
    assert_eq!(ColumnGeometry::new(0, W), ColumnGeometry { x: 0, width: W });
    assert_eq!(ColumnGeometry::new(1, W).x, W);
    assert_eq!(ColumnGeometry::new(7, W).x, 7 * W);
}

#[test]
fn viewport_offset_matches_column_x() {
    for idx in 0..10 {
        assert_eq!(viewport_offset_for_index(idx, W), idx as i32 * W);
        assert_eq!(viewport_offset_for_index(idx, 800), idx as i32 * 800);
    }
}

#[test]
fn column_position_relates_strip_and_viewport() {
    // Viewport on column 2: column 2 is at origin, column 3 one width ahead.
    let vp = viewport_offset_for_index(2, W);
    assert_eq!(column_position(2, vp, W), Point { x: 0, y: 0 });
    assert_eq!(column_position(3, vp, W), Point { x: W, y: 0 });
    assert_eq!(column_position(1, vp, W), Point { x: -W, y: 0 });
}

#[test]
fn containing_resolves_clamped_columns() {
    // Inside the strip: index follows the offset.
    assert_eq!(ColumnGeometry::containing(0, W).x, 0);
    assert_eq!(ColumnGeometry::containing(2 * W, W).x, 2 * W);
    assert_eq!(ColumnGeometry::containing(2 * W + W / 2, W).x, 2 * W);
    // Negative offsets clamp to column 0.
    assert_eq!(ColumnGeometry::containing(-500, W).x, 0);
}

#[test]
fn stepped_index_without_wraparound_stops_at_edges() {
    assert_eq!(stepped_index(0, -1, 5, false), None);
    assert_eq!(stepped_index(4, 1, 5, false), None);
    assert_eq!(stepped_index(2, 1, 5, false), Some(3));
    assert_eq!(stepped_index(2, -1, 5, false), Some(1));
}

#[test]
fn stepped_index_with_wraparound_cycles() {
    assert_eq!(stepped_index(0, -1, 5, true), Some(4));
    assert_eq!(stepped_index(4, 1, 5, true), Some(0));
    assert_eq!(stepped_index(0, -2, 5, true), Some(3));
    assert_eq!(stepped_index(0, 5, 5, true), Some(0));
}

#[test]
fn stepped_index_on_empty_strip_is_none() {
    assert_eq!(stepped_index(0, 1, 0, true), None);
}

#[test]
fn default_viewport_is_first_column() {
    assert_eq!(default_viewport(Size { w: W, h: 1080 }), Point { x: 0, y: 0 });
}

#[test]
fn containing_on_degenerate_widths() {
    // Without a width every column sits at the origin.
    assert_eq!(ColumnGeometry::containing(700, 0), ColumnGeometry { x: 0, width: 0 });
    // A negative width counts pixels.
    assert_eq!(ColumnGeometry::containing(3, -2), ColumnGeometry { x: -6, width: -2 });
}

#[test]
fn containing_covers_its_offset() {
    for offset in [0, 1, W - 1, W, W + 1, 5 * W - 1, i32::MAX] {
        let column = ColumnGeometry::containing(offset, W);
        assert!(column.x <= offset && offset - column.x < W);
    }
}

#[test]
fn indices_past_the_position_range_wrap() {
    assert_eq!(viewport_offset_for_index((1usize << 32) + 3, W), 3 * W);
}

#[test]
fn stepping_back_undoes_a_step() {
    for current in 0..5 {
        for delta in [-7, -1, 0, 1, 4, 12] {
            let there = stepped_index(current, delta, 5, true);
            assert!(there.is_some());
            assert_eq!(stepped_index(there.unwrap(), -delta, 5, true), Some(current));
        }
        assert_eq!(stepped_index(current, 15, 5, true), Some(current));
    }
}

#[test]
fn stepping_stays_on_the_strip() {
    for delta in -11..12 {
        for current in 0..4 {
            if let Some(next) = stepped_index(current, delta, 4, true) {
                assert!(next < 4);
            }
            let refused = stepped_index(current, delta, 4, false).is_none();
            let next = current as i32 + delta;
            assert_eq!(refused, next < 0 || next >= 4);
        }
    }
}

#[test]
fn strip_bounds_in_columns() {
    assert_eq!(last_column(5), 4);
    assert_eq!(last_column(1), 0);
    assert_eq!(last_column(0), 0);
    assert_eq!(column_span(W), W);
    assert_eq!(column_span(-3), 0);
}

#[test]
fn removal_shifts_by_one_column() {
    assert_eq!(removal_shift(0, 2, W), W);
    assert_eq!(removal_shift(3, 2, W), 0);
    assert_eq!(removal_shift(2, 2, W), 0);
    assert_eq!(removal_shift(0, 0, W), 0);
    assert_eq!(removal_shift(0, 2, -5), 0);
}
