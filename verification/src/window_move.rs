//! Where a window lands when it moves to another monitor.
use vstd::prelude::*;

verus! {

/// Where a window's origin may lie along one axis so that a window of the given
/// extent stays inside `[min_bound, max_bound]`.
pub open spec fn spec_clamp_window_origin(origin: int, extent: int, min_bound: int, max_bound: int) -> int {
    if extent >= max_bound - min_bound {
        min_bound
    } else if origin < min_bound {
        min_bound
    } else if origin > max_bound - extent {
        max_bound - extent
    } else {
        origin
    }
}

pub open spec fn fits_i32(x: int) -> bool {
    i32::MIN <= x <= i32::MAX
}

/// Clamps a window origin along one axis so the window stays on the target
/// monitor. A window at least as large as the monitor is pinned to `min_bound`.
pub fn clamp_window_origin(origin: i32, extent: i32, min_bound: i32, max_bound: i32) -> (res: i32)
    requires
        fits_i32(max_bound - min_bound),
        extent < max_bound - min_bound ==> fits_i32(max_bound - extent),
    ensures
        res == spec_clamp_window_origin(origin as int, extent as int, min_bound as int, max_bound as int),
{
    let available_span = max_bound - min_bound;
    if extent >= available_span {
        return min_bound;
    }
    let max_origin = max_bound - extent;
    if origin < min_bound {
        min_bound
    } else if origin > max_origin {
        max_origin
    } else {
        origin
    }
}

/// A clamped origin keeps the whole window on the monitor when it fits there,
/// and is the monitor's edge otherwise.
pub proof fn law_clamped_window_stays_on_monitor(origin: int, extent: int, min_bound: int, max_bound: int)
    requires
        min_bound <= max_bound,
        extent >= 0,
    ensures
        ({
            let o = spec_clamp_window_origin(origin, extent, min_bound, max_bound);
            &&& extent < max_bound - min_bound ==> min_bound <= o && o + extent <= max_bound
            &&& extent >= max_bound - min_bound ==> o == min_bound
            &&& (min_bound <= origin && origin + extent <= max_bound && extent < max_bound - min_bound)
                ==> o == origin
        }),
{
}

/// A screen rectangle.
#[derive(Debug, Clone, Copy, PartialEq, Eq)]
pub struct Rect {
    pub left: i32,
    pub top: i32,
    pub right: i32,
    pub bottom: i32,
}

/// The computations of a window move stay within `i32`.
pub open spec fn window_move_fits(window: Rect, source: Rect, position: (i32, i32), resolution: (u16, u16)) -> bool {
    let width = window.right - window.left;
    let height = window.bottom - window.top;
    let right = position.0 + resolution.0;
    let bottom = position.1 + resolution.1;
    let dx = window.left - source.left;
    let dy = window.top - source.top;
    &&& fits_i32(width)
    &&& fits_i32(height)
    &&& fits_i32(right)
    &&& fits_i32(bottom)
    &&& fits_i32(dx)
    &&& fits_i32(dy)
    &&& fits_i32(position.0 + dx)
    &&& fits_i32(position.1 + dy)
    &&& width < right - position.0 ==> fits_i32(right - width)
    &&& height < bottom - position.1 ==> fits_i32(bottom - height)
}

/// Where a window's top-left corner goes when it moves to the target monitor
/// (given by its position and resolution): the same offset from the
/// monitor's corner as on its source monitor, clamped so the window stays on
/// the target. `None` when the coordinates leave the `i32` range.
pub fn window_target_origin(
    window: Rect,
    source: Rect,
    position: (i32, i32),
    resolution: (u16, u16),
) -> (res: Option<(i32, i32)>)
    ensures
        !window_move_fits(window, source, position, resolution) ==> res is None,
        window_move_fits(window, source, position, resolution) ==> res == Some((
            spec_clamp_window_origin(
                position.0 + (window.left - source.left),
                window.right - window.left,
                position.0 as int,
                position.0 + resolution.0,
            ) as i32,
            spec_clamp_window_origin(
                position.1 + (window.top - source.top),
                window.bottom - window.top,
                position.1 as int,
                position.1 + resolution.1,
            ) as i32,
        )),
{
    let width = window.right as i64 - window.left as i64;
    let height = window.bottom as i64 - window.top as i64;
    let right = position.0 as i64 + resolution.0 as i64;
    let bottom = position.1 as i64 + resolution.1 as i64;
    let dx = window.left as i64 - source.left as i64;
    let dy = window.top as i64 - source.top as i64;
    let min: i64 = i32::MIN as i64;
    let max: i64 = i32::MAX as i64;
    if width < min || width > max || height < min || height > max || right > max || bottom > max
        || dx < min || dx > max || dy < min || dy > max {
        return None;
    }
    let desired_left = position.0 as i64 + dx;
    let desired_top = position.1 as i64 + dy;
    if desired_left < min || desired_left > max || desired_top < min || desired_top > max {
        return None;
    }
    if width < right - position.0 as i64 && right - width > max {
        return None;
    }
    if height < bottom - position.1 as i64 && bottom - height > max {
        return None;
    }
    if width < right - position.0 as i64 && right - width < min {
        return None;
    }
    if height < bottom - position.1 as i64 && bottom - height < min {
        return None;
    }
    let left = clamp_window_origin(desired_left as i32, width as i32, position.0, right as i32);
    let top = clamp_window_origin(desired_top as i32, height as i32, position.1, bottom as i32);
    Some((left, top))
}

} // verus!
