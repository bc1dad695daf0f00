//! Display orientations and the resolutions that go with them.
use vstd::prelude::*;

verus! {

/// `DMDO_DEFAULT`: landscape, not rotated.
pub const DMDO_DEFAULT: u32 = 0;

/// `DMDO_90`: portrait.
pub const DMDO_90: u32 = 1;

/// `DMDO_180`: landscape, upside down.
pub const DMDO_180: u32 = 2;

/// `DMDO_270`: portrait, upside down.
pub const DMDO_270: u32 = 3;

pub open spec fn spec_is_portrait_orientation(orientation: u32) -> bool {
    orientation == DMDO_90 || orientation == DMDO_270
}

pub open spec fn spec_is_flipped_orientation(orientation: u32) -> bool {
    orientation == DMDO_180 || orientation == DMDO_270
}

/// A resolution is portrait when it is taller than wide.
pub fn is_portrait_resolution(width: u16, height: u16) -> (b: bool)
    ensures
        b == (height > width),
{
    height > width
}

/// The orientations rotated by 90 or 270 degrees are portrait.
pub fn is_portrait_orientation(orientation: u32) -> (b: bool)
    ensures
        b == spec_is_portrait_orientation(orientation),
{
    orientation == DMDO_90 || orientation == DMDO_270
}

/// The orientations rotated by 180 or 270 degrees are flipped.
pub fn is_flipped_orientation(orientation: u32) -> (b: bool)
    ensures
        b == spec_is_flipped_orientation(orientation),
{
    orientation == DMDO_180 || orientation == DMDO_270
}

pub open spec fn spec_desired_display_orientation(width: u16, height: u16, flip: bool) -> u32 {
    if height > width {
        if flip {
            DMDO_270
        } else {
            DMDO_90
        }
    } else if flip {
        DMDO_180
    } else {
        DMDO_DEFAULT
    }
}

/// The orientation for a requested resolution: portrait for a tall one,
/// landscape otherwise, turned upside down when `flip_orientation` is set.
pub fn desired_display_orientation(width: u16, height: u16, flip_orientation: bool) -> (o: u32)
    ensures
        o == spec_desired_display_orientation(width, height, flip_orientation),
{
    if is_portrait_resolution(width, height) {
        if flip_orientation {
            DMDO_270
        } else {
            DMDO_90
        }
    } else if flip_orientation {
        DMDO_180
    } else {
        DMDO_DEFAULT
    }
}

/// The orientation chosen for a resolution is portrait exactly when the
/// resolution is, and flipped exactly when a flip was asked for.
pub proof fn lemma_desired_orientation_matches_request(width: u16, height: u16, flip: bool)
    ensures
        spec_is_portrait_orientation(spec_desired_display_orientation(width, height, flip)) == (
        height > width),
        spec_is_flipped_orientation(spec_desired_display_orientation(width, height, flip))
            == flip,
{
}

pub open spec fn spec_mode_dimensions_for_orientation_transition(
    width: u16,
    height: u16,
    current: u32,
    desired: u32,
) -> (u16, u16) {
    if spec_is_portrait_orientation(current) != spec_is_portrait_orientation(desired) {
        (height, width)
    } else {
        (width, height)
    }
}

/// The pixel dimensions to keep while only the orientation changes: swapped
/// when the change turns portrait into landscape or back.
pub fn mode_dimensions_for_orientation_transition(
    width: u16,
    height: u16,
    current_orientation: u32,
    desired_orientation: u32,
) -> (dims: (u16, u16))
    ensures
        dims == spec_mode_dimensions_for_orientation_transition(
            width,
            height,
            current_orientation,
            desired_orientation,
        ),
{
    if is_portrait_orientation(current_orientation) != is_portrait_orientation(
        desired_orientation,
    ) {
        (height, width)
    } else {
        (width, height)
    }
}

/// Turning there and back again restores the original dimensions.
pub proof fn lemma_orientation_transition_round_trip(w: u16, h: u16, a: u32, b: u32)
    ensures
        ({
            let d = spec_mode_dimensions_for_orientation_transition(w, h, a, b);
            spec_mode_dimensions_for_orientation_transition(d.0, d.1, b, a) == (w, h)
        }),
{
}

/// Turning a monitor keeps its two dimensions, swapped exactly when the turn
/// goes from portrait (`DMDO_90`, `DMDO_270`) to landscape or back: a
/// resolution whose shape fits the current orientation comes out with the
/// shape of the desired one. Whether either orientation is upside down
/// makes no difference.
pub proof fn law_orientation_change_follows_shape(
    w: u16,
    h: u16,
    current: u32,
    desired: u32,
    current_alt: u32,
    desired_alt: u32,
)
    requires
        (current == DMDO_90 || current == DMDO_270) == (current_alt == DMDO_90 || current_alt
            == DMDO_270),
        (desired == DMDO_90 || desired == DMDO_270) == (desired_alt == DMDO_90 || desired_alt
            == DMDO_270),
    ensures
        ({
            let d = spec_mode_dimensions_for_orientation_transition(w, h, current, desired);
            let cur_portrait = current == DMDO_90 || current == DMDO_270;
            let des_portrait = desired == DMDO_90 || desired == DMDO_270;
            &&& d == (if cur_portrait != des_portrait {
                (h, w)
            } else {
                (w, h)
            })
            &&& w != h && (h > w) == cur_portrait ==> (d.1 > d.0) == des_portrait
            &&& d == spec_mode_dimensions_for_orientation_transition(
                w,
                h,
                current_alt,
                desired_alt,
            )
        }),
{
}

pub open spec fn spec_normalize_resolution_for_orientation(resolution: (u16, u16), orientation: u32) -> (u16, u16) {
    let (width, height) = resolution;
    if spec_is_portrait_orientation(orientation) {
        if width > height {
            (height, width)
        } else {
            (width, height)
        }
    } else if height > width {
        (height, width)
    } else {
        (width, height)
    }
}

/// The resolution written the way round that the orientation shows it:
/// taller than wide for a portrait orientation, wider than tall otherwise.
pub fn normalize_resolution_for_orientation(resolution: (u16, u16), orientation: u32) -> (r: (u16, u16))
    ensures
        r == spec_normalize_resolution_for_orientation(resolution, orientation),
{
    let (width, height) = resolution;
    if is_portrait_orientation(orientation) {
        if width > height {
            (height, width)
        } else {
            (width, height)
        }
    } else if height > width {
        (height, width)
    } else {
        (width, height)
    }
}

/// A normalized resolution holds the same two numbers, and its shape follows
/// the orientation.
pub proof fn lemma_normalized_resolution_shape(resolution: (u16, u16), orientation: u32)
    ensures
        ({
            let r = spec_normalize_resolution_for_orientation(resolution, orientation);
            &&& (r == resolution || r == (resolution.1, resolution.0))
            &&& spec_is_portrait_orientation(orientation) ==> r.1 >= r.0
            &&& !spec_is_portrait_orientation(orientation) ==> r.0 >= r.1
        }),
{
}

} // verus!
