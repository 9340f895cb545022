//! What the viewer's keys do to its view: panning, zooming, the step size
//! and the frame delay.

use vstd::prelude::*;

use crate::BoundingBox;

verus! {

/// How many scaled cells a large pan moves the view by.
pub const MOVEMENT_FACTOR: u64 = 4;

/// The smallest scale: one cell per dot.
pub const MIN_SCALE: u64 = 1;

/// The largest scale the zoom keys reach.
pub const MAX_SCALE: u64 = 0x1_0000_0000_0000;

/// The largest step size the step keys reach.
pub const MAX_STEP: u64 = 0x1_0000_0000_0000;

/// The largest frame delay, in milliseconds, the delay keys reach.
pub const MAX_DELAY: u64 = 1024;

/// The view center moved by `dy` rows.
fn move_vert(center: (i64, i64), dy: u64, down: bool) -> (r: (i64, i64))
    requires
        dy <= i64::MAX,
        down ==> center.1 + dy <= i64::MAX,
        !down ==> i64::MIN <= center.1 - dy,
    ensures
        r.0 == center.0,
        r.1 == (if down { center.1 + dy } else { center.1 - dy }),
{
    let d = dy as i64;
    if down {
        (center.0, center.1 + d)
    } else {
        (center.0, center.1 - d)
    }
}

/// The view center moved by `dx` columns.
fn move_horiz(center: (i64, i64), dx: u64, right: bool) -> (r: (i64, i64))
    requires
        dx <= i64::MAX,
        right ==> center.0 + dx <= i64::MAX,
        !right ==> i64::MIN <= center.0 - dx,
    ensures
        r.1 == center.1,
        r.0 == (if right { center.0 + dx } else { center.0 - dx }),
{
    let d = dx as i64;
    if right {
        (center.0 + d, center.1)
    } else {
        (center.0 - d, center.1)
    }
}

/// The center after a large pan down: `MOVEMENT_FACTOR` scaled cells.
pub fn pan_down(center: (i64, i64), scale: u64) -> (r: (i64, i64))
    requires
        MOVEMENT_FACTOR * scale <= i64::MAX,
        center.1 + MOVEMENT_FACTOR * scale <= i64::MAX,
    ensures
        r == (center.0, (center.1 + MOVEMENT_FACTOR * scale) as i64),
{
    move_vert(center, MOVEMENT_FACTOR * scale, true)
}

/// The center after a large pan up.
pub fn pan_up(center: (i64, i64), scale: u64) -> (r: (i64, i64))
    requires
        MOVEMENT_FACTOR * scale <= i64::MAX,
        i64::MIN <= center.1 - MOVEMENT_FACTOR * scale,
    ensures
        r == (center.0, (center.1 - MOVEMENT_FACTOR * scale) as i64),
{
    move_vert(center, MOVEMENT_FACTOR * scale, false)
}

/// The center after a large pan left.
pub fn pan_left(center: (i64, i64), scale: u64) -> (r: (i64, i64))
    requires
        MOVEMENT_FACTOR * scale <= i64::MAX,
        i64::MIN <= center.0 - MOVEMENT_FACTOR * scale,
    ensures
        r == ((center.0 - MOVEMENT_FACTOR * scale) as i64, center.1),
{
    move_horiz(center, MOVEMENT_FACTOR * scale, false)
}

/// The center after a large pan right.
pub fn pan_right(center: (i64, i64), scale: u64) -> (r: (i64, i64))
    requires
        MOVEMENT_FACTOR * scale <= i64::MAX,
        center.0 + MOVEMENT_FACTOR * scale <= i64::MAX,
    ensures
        r == ((center.0 + MOVEMENT_FACTOR * scale) as i64, center.1),
{
    move_horiz(center, MOVEMENT_FACTOR * scale, true)
}

/// The center after a small pan down: one scaled cell.
pub fn pan_down_small(center: (i64, i64), scale: u64) -> (r: (i64, i64))
    requires
        scale <= i64::MAX,
        center.1 + scale <= i64::MAX,
    ensures
        r == (center.0, (center.1 + scale) as i64),
{
    move_vert(center, scale, true)
}

/// The center after a small pan up.
pub fn pan_up_small(center: (i64, i64), scale: u64) -> (r: (i64, i64))
    requires
        scale <= i64::MAX,
        i64::MIN <= center.1 - scale,
    ensures
        r == (center.0, (center.1 - scale) as i64),
{
    move_vert(center, scale, false)
}

/// The center after a small pan left.
pub fn pan_left_small(center: (i64, i64), scale: u64) -> (r: (i64, i64))
    requires
        scale <= i64::MAX,
        i64::MIN <= center.0 - scale,
    ensures
        r == ((center.0 - scale) as i64, center.1),
{
    move_horiz(center, scale, false)
}

/// The center after a small pan right.
pub fn pan_right_small(center: (i64, i64), scale: u64) -> (r: (i64, i64))
    requires
        scale <= i64::MAX,
        center.0 + scale <= i64::MAX,
    ensures
        r == ((center.0 + scale) as i64, center.1),
{
    move_horiz(center, scale, true)
}

/// Whether the simulation runs after the start/stop key.
pub fn toggle_simulation(is_running: bool) -> (r: bool)
    ensures
        r == !is_running,
{
    !is_running
}

/// The scale after zooming out: doubled, below `MAX_SCALE`.
pub fn increase_scale(scale: u64) -> (r: u64)
    ensures
        r == (if scale < MAX_SCALE { 2 * scale } else { scale as int }),
{
    if scale < MAX_SCALE {
        scale * 2
    } else {
        scale
    }
}

/// The scale after zooming in: halved, above `MIN_SCALE`.
pub fn decrease_scale(scale: u64) -> (r: u64)
    ensures
        r == (if scale > MIN_SCALE { scale / 2 } else { scale }),
{
    if scale > MIN_SCALE {
        scale / 2
    } else {
        scale
    }
}

/// The step size after the faster key: doubled, below `MAX_STEP`.
pub fn increase_step(step: u64) -> (r: u64)
    ensures
        r == (if step < MAX_STEP { 2 * step } else { step as int }),
{
    if step < MAX_STEP {
        step * 2
    } else {
        step
    }
}

/// The step size after the slower key: halved, above 1.
pub fn decrease_step(step: u64) -> (r: u64)
    ensures
        r == (if step > 1 { step / 2 } else { step }),
{
    if step > 1 {
        step / 2
    } else {
        step
    }
}

/// The frame delay after the longer key: doubled, below `MAX_DELAY`.
pub fn increase_delay(delay: u64) -> (r: u64)
    ensures
        r == (if delay < MAX_DELAY { 2 * delay } else { delay as int }),
{
    if delay < MAX_DELAY {
        delay * 2
    } else {
        delay
    }
}

/// The frame delay after the shorter key: halved, above 1.
pub fn decrease_delay(delay: u64) -> (r: u64)
    ensures
        r == (if delay > 1 { delay / 2 } else { delay }),
{
    if delay > 1 {
        delay / 2
    } else {
        delay
    }
}

/// Half of `s`, rounded toward zero.
pub open spec fn half_toward_zero(s: int) -> int {
    if s >= 0 {
        s / 2
    } else {
        -((-s) / 2)
    }
}

/// The number of cells `d` dots at the given scale span: the quotient of
/// `cells` by `d`, rounded up.
pub open spec fn ceil_div(cells: int, d: int) -> int {
    (cells + d - 1) / d
}

/// `p` is a power of two.
pub open spec fn is_power_of_two(p: int) -> bool {
    exists|k: nat| p == crate::node::two_pow(k)
}

/// The smallest power of two that is at least `n`.
pub open spec fn is_next_power_of_two(p: int, n: int) -> bool {
    &&& is_power_of_two(p)
    &&& n <= p
    &&& (p == 1 || p / 2 < n)
}

/// The scale that fits a box of `width` by `height` cells in a view of
/// `output_width` by `output_height` characters of 2 by 4 dots.
pub open spec fn fitting_scale(width: int, height: int, output_width: int, output_height: int) -> int {
    let by_width = ceil_div(width, 2 * output_width);
    let by_height = ceil_div(height, 4 * output_height);
    if by_width >= by_height {
        by_width
    } else {
        by_height
    }
}

/// The smallest power of two that is at least `n`.
fn next_power_of_two(n: u128) -> (p: u128)
    requires
        n <= 0x8000_0000_0000_0000,
    ensures
        is_next_power_of_two(p as int, n as int),
        p <= 0x8000_0000_0000_0000,
{
    let mut p: u128 = 1;
    let ghost mut k: nat = 0;
    assert(crate::node::two_pow(0) == 1) by {
        reveal_with_fuel(crate::node::two_pow, 1);
    }
    while p < n
        invariant
            n <= 0x8000_0000_0000_0000,
            p == crate::node::two_pow(k),
            1 <= p,
            p == 1 || p / 2 < n,
            p <= 0x8000_0000_0000_0000,
            k <= 63,
        decreases 0x8000_0000_0000_0000 - p,
    {
        proof {
            crate::node::cells::lemma_two_pow_62();
            assert(crate::node::two_pow(63) == 2 * crate::node::two_pow(62)) by {
                reveal_with_fuel(crate::node::two_pow, 2);
            }
            if k == 63 {
                assert(false);
            }
            crate::node::lemma_two_pow_monotonic(k, 62);
            assert(crate::node::two_pow(k + 1) == 2 * crate::node::two_pow(k)) by {
                reveal_with_fuel(crate::node::two_pow, 2);
            }
            k = k + 1;
        }
        p = p * 2;
    }
    p
}

/// The view that shows the whole box: its center, rounded toward zero, and
/// the smallest power-of-two scale that fits it in `output_width` by
/// `output_height` characters; the origin at scale 1 for no box.
pub fn view_for(bounding_box: Option<BoundingBox>, output_width: u64, output_height: u64) -> (r: ((i64, i64), u64))
    requires
        output_width > 0,
        output_height > 0,
        bounding_box matches Some(b) ==> {
            &&& b.wf()
            &&& i64::MIN <= b.spec_upper_left().x + b.spec_lower_right().x <= i64::MAX
            &&& i64::MIN <= b.spec_upper_left().y + b.spec_lower_right().y <= i64::MAX
        },
    ensures
        bounding_box is None ==> r == ((0i64, 0i64), 1u64),
        bounding_box matches Some(b) ==> {
            &&& r.0.0 == half_toward_zero(b.spec_upper_left().x + b.spec_lower_right().x)
            &&& r.0.1 == half_toward_zero(b.spec_upper_left().y + b.spec_lower_right().y)
            &&& is_next_power_of_two(
                r.1 as int,
                fitting_scale(
                    b.spec_lower_right().x - b.spec_upper_left().x + 1,
                    b.spec_lower_right().y - b.spec_upper_left().y + 1,
                    output_width as int,
                    output_height as int,
                ),
            )
        },
{
    match bounding_box {
        None => ((0, 0), 1),
        Some(b) => {
            let ul = b.upper_left();
            let lr = b.lower_right();
            let center = ((ul.x + lr.x) / 2, (ul.y + lr.y) / 2);
            let width = (lr.x as i128 - ul.x as i128 + 1) as u128;
            let height = (lr.y as i128 - ul.y as i128 + 1) as u128;
            let dw = 2 * (output_width as u128);
            let dh = 4 * (output_height as u128);
            let by_width = (width + dw - 1) / dw;
            let by_height = (height + dh - 1) / dh;
            let fit = if by_width >= by_height {
                by_width
            } else {
                by_height
            };
            assert(fit <= 0x8000_0000_0000_0000) by (nonlinear_arith)
                requires
                    width <= 0x1_0000_0000_0000_0000,
                    height <= 0x1_0000_0000_0000_0000,
                    dw >= 2,
                    dh >= 4,
                    by_width == (width + dw - 1) as int / (dw as int),
                    by_height == (height + dh - 1) as int / (dh as int),
                    fit == by_width || fit == by_height,
            ;
            let scale = next_power_of_two(fit);
            (center, scale as u64)
        },
    }
}

} // verus!
