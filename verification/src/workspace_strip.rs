//! Geometry for the workspace strip of the scrolling layout.
//!
//! In scrolling mode the workspaces of an output form a single horizontal
//! strip: workspace `N` occupies the column at `x = N * column_width`. The
//! viewport shows exactly one column at a time; activating a workspace pans
//! the viewport to that column.
//!
//! This module owns the positioning policy in whole pixels. It knows nothing
//! about shells, outputs or rendering.

use vstd::prelude::*;

use crate::geometry::{Point, Size};

verus! {

/// The column that an index names. Positions are 32-bit, so an index above
/// `i32::MAX` wraps.
pub open spec fn column_number(index: usize) -> int {
    (index as i32) as int
}

/// Left edge of a column on a strip of columns of one width.
pub open spec fn column_x(column: int, width: int) -> int {
    column * width
}

/// Left edge of a column relative to a viewport at `viewport_x`.
pub open spec fn relative_x(column: int, viewport_x: int, width: int) -> int {
    column_x(column, width) - viewport_x
}

/// Whether a pixel position can be represented.
pub open spec fn fits(x: int) -> bool {
    i32::MIN <= x <= i32::MAX
}

/// The larger of two numbers.
pub open spec fn max_of(a: int, b: int) -> int {
    if a >= b {
        a
    } else {
        b
    }
}

/// The column under `viewport_x`, on a strip that starts at 0.
pub open spec fn column_under(viewport_x: int, width: int) -> int {
    max_of(viewport_x, 0) / max_of(width, 1)
}

/// Where a step of `delta` from `current` leads on a strip of `count`
/// columns.
pub open spec fn stepped(current: int, delta: int, count: int, wraparound: bool) -> Option<int> {
    let next = current + delta;
    if 0 <= next < count {
        Some(next)
    } else if wraparound {
        Some(next % count)
    } else {
        None
    }
}

/// Position and width of one workspace column on the horizontal strip.
#[derive(Debug, Clone, Copy, PartialEq, Eq, Structural)]
pub struct ColumnGeometry {
    /// Horizontal offset of the column's left edge relative to the strip
    /// origin.
    pub x: i32,
    /// Width of the column.
    pub width: i32,
}

impl ColumnGeometry {
    /// Geometry of column `index` on a strip of uniformly sized columns.
    pub fn new(index: usize, width: i32) -> (r: Self)
        requires
            fits(column_x(column_number(index), width as int)),
        ensures
            r.x == column_x(column_number(index), width as int),
            r.width == width,
            index <= i32::MAX ==> r.x == index * width,
    {
        ColumnGeometry { x: index as i32 * width, width }
    }

    /// Geometry of the column currently under `viewport_x`.
    ///
    /// `viewport_x` is clamped to the strip's left edge, so a mid-gesture
    /// offset beyond it resolves to the first column.
    pub fn containing(viewport_x: i32, width: i32) -> (r: Self)
        requires
            width < 0 ==> fits(max_of(viewport_x as int, 0) * width),
        ensures
            r.x == column_x(column_under(viewport_x as int, width as int), width as int),
            r.width == width,
            width > 0 ==> r.x <= max_of(viewport_x as int, 0) < r.x + width,
            width > 0 && viewport_x < 0 ==> r.x == 0,
            width > 0 && viewport_x >= 0 ==> r.x <= viewport_x < r.x + width,
            width > 0 ==> exists|column: int|
                0 <= column && r.x == #[trigger] (column * width),
            width <= 0 && viewport_x < 0 ==> r.x == 0,
            width <= 0 && viewport_x >= 0 ==> r.x == viewport_x * width,
    {
        let clamped = if viewport_x >= 0 {
            viewport_x
        } else {
            0
        };
        let divisor = if width >= 1 {
            width
        } else {
            1
        };
        proof {
            lemma_column_under(viewport_x as int, width as int);
            let column = column_under(viewport_x as int, width as int);
            assert(column * width == column_x(column, width as int));
            if viewport_x < 0 {
                vstd::arithmetic::div_mod::lemma_div_basics(max_of(width as int, 1));
                assert(column == 0);
                vstd::arithmetic::mul::lemma_mul_basics(width as int);
            }
        }
        Self::new((clamped / divisor) as usize, width)
    }
}

/// X offset of the viewport origin that makes column `index` fully visible:
/// `index * width`.
pub fn viewport_offset_for_index(index: usize, width: i32) -> (r: i32)
    requires
        fits(column_x(column_number(index), width as int)),
    ensures
        r == column_x(column_number(index), width as int),
        index <= i32::MAX ==> r == index * width,
{
    ColumnGeometry::new(index, width).x
}

/// Position of the workspace column relative to the viewport origin, given
/// the viewport x offset. A column with the viewport at its own offset is at
/// `(0, 0)`.
pub fn column_position(index: usize, viewport_x: i32, width: i32) -> (r: Point)
    requires
        fits(column_x(column_number(index), width as int)),
        fits(relative_x(column_number(index), viewport_x as int, width as int)),
    ensures
        r.x == relative_x(column_number(index), viewport_x as int, width as int),
        r.y == 0,
        index <= i32::MAX ==> r.x == index * width - viewport_x,
{
    Point { x: ColumnGeometry::new(index, width).x - viewport_x, y: 0 }
}

/// The target index for a step of `delta` from `current`, or `None` when the
/// step leaves the strip and `wraparound` is disabled.
pub fn stepped_index(current: usize, delta: i32, count: usize, wraparound: bool) -> (r: Option<
    usize,
>)
    requires
        count > 0 ==> fits(column_number(current) + delta),
        count > 0 && wraparound && !(0 <= column_number(current) + delta < column_number(count))
            ==> column_number(count) != 0 && !(column_number(current) + delta == i32::MIN
            && column_number(count) == -1),
    ensures
        count == 0 ==> r is None,
        count > 0 ==> match stepped(
            column_number(current),
            delta as int,
            column_number(count),
            wraparound,
        ) {
            Some(next) => r is Some && r->0 == next,
            None => r is None,
        },
        0 < count <= i32::MAX && current <= i32::MAX ==> {
            let next = current + delta;
            &&& 0 <= next < count ==> r is Some && r->0 == next
            &&& !(0 <= next < count) && !wraparound ==> r is None
            &&& !(0 <= next < count) && wraparound ==> r is Some && r->0 < count && (next - r->0)
                % (count as int) == 0
        },
{
    if count == 0 {
        return None;
    }
    let current = current as i32;
    let count = count as i32;
    let next = current + delta;
    if 0 <= next && next < count {
        Some(next as usize)
    } else if wraparound {
        proof {
            if count > 0 {
                vstd::arithmetic::div_mod::lemma_mod_bound(next as int, count as int);
                vstd::arithmetic::div_mod::lemma_fundamental_div_mod(next as int, count as int);
                vstd::arithmetic::div_mod::lemma_mod_multiples_basic(
                    next as int / count as int,
                    count as int,
                );
                vstd::arithmetic::mul::lemma_mul_is_commutative(
                    count as int,
                    next as int / count as int,
                );
            }
        }
        match next.checked_rem_euclid(count) {
            Some(wrapped) => Some(wrapped as usize),
            None => None,
        }
    } else {
        None
    }
}

/// Default viewport position for an output: centered on column 0.
pub fn default_viewport(output_size: Size) -> (r: Point)
    ensures
        r == (Point { x: 0, y: 0 }),
{
    Point { x: viewport_offset_for_index(0, output_size.w), y: 0 }
}

/// The last column of a strip of `count` columns; a strip without columns
/// counts as one with column 0.
pub fn last_column(count: usize) -> (r: usize)
    ensures
        r == if count == 0 {
            0
        } else {
            count - 1
        },
{
    count.saturating_sub(1)
}

/// How far apart the left edges of neighbouring columns are: the column
/// width, or nothing where the width is negative.
pub fn column_span(width: i32) -> (r: i32)
    ensures
        r == max_of(width as int, 0),
        width >= 0 ==> r == width,
        width < 0 ==> r == 0,
{
    if width >= 0 {
        width
    } else {
        0
    }
}

/// How far the viewport moves left when the column at `removed_index` is
/// removed: one column where it was left of the active one, so that the
/// viewport stays on the same logical column, else nothing.
pub fn removal_shift(removed_index: usize, old_active: usize, width: i32) -> (r: i32)
    ensures
        r == if removed_index < old_active {
            max_of(width as int, 0)
        } else {
            0
        },
        removed_index < old_active && width >= 0 ==> r == width,
        removed_index >= old_active || width < 0 ==> r == 0,
{
    if removed_index < old_active {
        column_span(width)
    } else {
        0
    }
}

/// The column under an offset covers it, unless the width is negative.
proof fn lemma_column_under(viewport_x: int, width: int)
    ensures
        0 <= column_under(viewport_x, width) <= max_of(viewport_x, 0),
        width >= 0 ==> 0 <= column_under(viewport_x, width) * width <= max_of(viewport_x, 0),
        width > 0 ==> max_of(viewport_x, 0) < column_under(viewport_x, width) * width + width,
        width <= 0 ==> column_under(viewport_x, width) == max_of(viewport_x, 0),
{
    let x = max_of(viewport_x, 0);
    let w = max_of(width, 1);
    vstd::arithmetic::div_mod::lemma_fundamental_div_mod(x, w);
    vstd::arithmetic::div_mod::lemma_mod_bound(x, w);
    vstd::arithmetic::div_mod::lemma_div_pos_is_pos(x, w);
    vstd::arithmetic::mul::lemma_mul_is_commutative(w, x / w);
    assert(x / w <= x) by (nonlinear_arith)
        requires
            x / w * w <= x,
            w >= 1,
            0 <= x / w,
    ;
    vstd::arithmetic::div_mod::lemma_div_basics(x);
    vstd::arithmetic::mul::lemma_mul_basics(column_under(viewport_x, width));
}

/// Positions on the strip are multiples of the width, counted from the left.
pub proof fn law_columns_are_widths_apart(index: usize, column: int, viewport_x: int, width: int)
    ensures
        index <= i32::MAX ==> column_number(index) == index,
        column_x(column, width) == column * width,
        relative_x(column, viewport_x, width) == column * width - viewport_x,
        fits(viewport_x) <==> -2147483648 <= viewport_x <= 2147483647,
{
}

/// An index above the 32-bit range names the column that its low 32 bits name.
pub proof fn law_large_indices_wrap(index: usize)
    ensures
        ({
            let low = index as int % 0x1_0000_0000;
            column_number(index) == (if low < 0x8000_0000 {
                low
            } else {
                low - 0x1_0000_0000
            })
        }),
{
    let wide = index as u64;
    let low = wide % 0x1_0000_0000;
    assert(index as i32 == wide as i32) by (bit_vector)
        requires
            wide == index as u64,
    ;
    assert(low < 0x8000_0000 ==> wide as i32 == low) by (bit_vector)
        requires
            low == wide % 0x1_0000_0000,
    ;
    assert(low >= 0x8000_0000 ==> wide as i32 == low - 0x1_0000_0000) by (bit_vector)
        requires
            low == wide % 0x1_0000_0000,
    ;
}

/// A step that wraps around ends on the column that is whole turns away.
pub proof fn law_step_wraps_by_whole_turns(current: int, delta: int, count: int)
    requires
        count != 0,
    ensures
        stepped(current, delta, count, true) is Some,
        0 <= stepped(current, delta, count, true)->0,
        stepped(current, delta, count, true)->0 < (if count > 0 {
            count
        } else {
            -count
        }),
        (current + delta - stepped(current, delta, count, true)->0) % count == 0,
        stepped(current, delta, count, false) == (if 0 <= current + delta < count {
            Some(current + delta)
        } else {
            None
        }),
{
    let next = current + delta;
    if count > 0 {
        vstd::arithmetic::div_mod::lemma_mod_bound(next, count);
        vstd::arithmetic::div_mod::lemma_fundamental_div_mod(next, count);
        vstd::arithmetic::div_mod::lemma_mod_multiples_basic(next / count, count);
        vstd::arithmetic::mul::lemma_mul_is_commutative(count, next / count);
        vstd::arithmetic::div_mod::lemma_small_mod(0, count as nat);
    } else {
        assert(0 <= next % count < -count) by (nonlinear_arith)
            requires
                count < 0,
        ;
        let turns = next / count;
        assert(next - next % count == turns * count) by (nonlinear_arith)
            requires
                count != 0,
                turns == next / count,
        ;
        assert((turns * count) % count == 0) by (nonlinear_arith)
            requires
                count != 0,
        ;
    }
}

/// With the viewport at a column's own offset the column is at the viewport
/// origin, and every other column is as many widths away as there are columns
/// between.
pub proof fn law_viewport_shows_its_column(column: int, other: int, width: int)
    ensures
        relative_x(column, column_x(column, width), width) == 0,
        relative_x(other, column_x(column, width), width) == column_x(other - column, width),
{
    assert(other * width - column * width == (other - column) * width) by (nonlinear_arith);
}

/// The column under a viewport that shows column `index`, or any part of it
/// at its left edge, is column `index`.
pub proof fn law_column_under_its_offset(index: int, width: int, inside: int)
    requires
        0 <= index,
        0 < width,
        0 <= inside < width,
    ensures
        column_under(column_x(index, width) + inside, width) == index,
{
    assert(0 <= index * width) by (nonlinear_arith)
        requires
            0 <= index,
            0 < width,
    ;
    vstd::arithmetic::div_mod::lemma_fundamental_div_mod_converse(
        index * width + inside,
        width,
        index,
        inside,
    );
}

/// Offsets left of the strip resolve to the first column.
pub proof fn law_left_of_strip_is_first_column(viewport_x: int, width: int)
    requires
        viewport_x <= 0,
    ensures
        column_under(viewport_x, width) == 0,
{
    vstd::arithmetic::div_mod::lemma_div_basics(max_of(width, 1));
}

/// A step never leaves the strip: where it gives a column, the column exists.
pub proof fn law_step_stays_on_strip(current: int, delta: int, count: int, wraparound: bool)
    requires
        0 < count,
    ensures
        stepped(current, delta, count, wraparound) is Some ==> 0 <= stepped(
            current,
            delta,
            count,
            wraparound,
        )->0 < count,
{
    vstd::arithmetic::div_mod::lemma_mod_bound(current + delta, count);
}

/// Without wraparound a step is refused exactly where it would leave the
/// strip; with wraparound it is never refused.
pub proof fn law_step_refused_at_edges(current: int, delta: int, count: int)
    requires
        0 < count,
    ensures
        stepped(current, delta, count, false) is None <==> !(0 <= current + delta < count),
        stepped(current, delta, count, true) is Some,
        0 <= current + delta < count ==> stepped(current, delta, count, true) == stepped(
            current,
            delta,
            count,
            false,
        ),
{
}

/// With wraparound, stepping back undoes a step.
pub proof fn law_step_back_undoes_step(current: int, delta: int, count: int)
    requires
        0 <= current < count,
    ensures
        stepped(stepped(current, delta, count, true)->0, -delta, count, true) == Some(current),
{
    let next = current + delta;
    vstd::arithmetic::div_mod::lemma_mod_bound(next, count);
    vstd::arithmetic::div_mod::lemma_small_mod(current as nat, count as nat);
    let there = stepped(current, delta, count, true)->0;
    if 0 <= next < count {
        vstd::arithmetic::div_mod::lemma_small_mod(next as nat, count as nat);
    }
    assert(there == next % count);
    vstd::arithmetic::div_mod::lemma_sub_mod_noop(next, delta, count);
    vstd::arithmetic::div_mod::lemma_sub_mod_noop(there, delta, count);
    vstd::arithmetic::div_mod::lemma_mod_twice(next, count);
    let back = there - delta;
    assert(back % count == current);
    if 0 <= back < count {
        vstd::arithmetic::div_mod::lemma_small_mod(back as nat, count as nat);
    }
}

/// Stepping around the whole strip leads back.
pub proof fn law_full_turn_is_identity(current: int, turns: int, count: int)
    requires
        0 <= current < count,
    ensures
        stepped(current, turns * count, count, true) == Some(current),
{
    vstd::arithmetic::div_mod::lemma_small_mod(current as nat, count as nat);
    vstd::arithmetic::div_mod::lemma_mod_multiples_vanish(turns, current, count);
    vstd::arithmetic::mul::lemma_mul_is_commutative(turns, count);
    let next = current + turns * count;
    if 0 <= next < count {
        vstd::arithmetic::div_mod::lemma_small_mod(next as nat, count as nat);
    }
}

} // verus!
