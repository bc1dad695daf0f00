//! Monitors as the display API reports them, and the decisions that turn a
//! requested layout into display changes. The changes themselves are made by
//! the caller, which hands in the monitors it enumerated.
use vstd::prelude::*;

use crate::orientation::{
    desired_display_orientation, is_flipped_orientation, normalize_resolution_for_orientation,
    spec_desired_display_orientation, spec_is_flipped_orientation,
    spec_normalize_resolution_for_orientation,
};
use crate::text::{chars_of, join, join_lines, push_all, string_from_chars};

verus! {

/// An active monitor.
#[derive(Debug, PartialEq, Eq)]
pub struct MonitorInfo {
    pub device_name: String,
    pub index: u8,
    pub position: (i32, i32),
    pub resolution: (u16, u16),
    pub refresh_rate: u16,
    pub display_orientation: u32,
    pub is_primary: bool,
}

/// The saved mode of one monitor.
#[derive(Debug, PartialEq, Eq)]
pub struct DisplayModeSnapshot {
    pub device_name: String,
    pub resolution: (u16, u16),
    pub refresh_rate: u16,
    pub display_orientation: u32,
}

/// The display state to come back to: the primary monitor and the mode of
/// every monitor.
#[derive(Debug, PartialEq, Eq)]
pub struct DisplaySnapshot {
    pub primary: u8,
    pub primary_device_name: String,
    pub resolution: (u16, u16),
    pub refresh_rate: u16,
    pub flip_orientation: bool,
    pub display_orientation: u32,
    pub monitor_modes: Vec<DisplayModeSnapshot>,
}

/// Why a display change could not be planned or made.
#[derive(Debug, Clone, PartialEq, Eq)]
pub enum DisplayError {
    /// No active monitor carries the requested index.
    MonitorNotFound { index: u8 },
    /// No active monitor is the primary one.
    NoPrimaryMonitor,
    /// A display settings change returned this status.
    DisplayChangeFailed { code: i32 },
    /// The display configuration gave no label for an active monitor.
    MissingMonitorLabel { device_name: String, known_labels: Vec<String> },
    /// Asking for the display configuration's buffer sizes failed.
    BufferSizeQueryFailed { status: u32 },
    /// Querying the display configuration failed.
    ConfigQueryFailed { status: u32 },
    /// The display configuration holds no active path.
    NoActivePaths,
    /// The display configuration gave no usable source name.
    NoUsableLabels { path_count: u32, source_name_failures: u32, ordinal_overflow: u32 },
}

/// A mode to set on one monitor.
#[derive(Debug, Clone, PartialEq, Eq)]
pub struct ModeRequest {
    pub device_name: String,
    pub width: u16,
    pub height: u16,
    pub refresh_rate: u16,
    pub orientation: u32,
}

/// A monitor moved by the offset that brings the new primary to the origin.
#[derive(Debug, Clone, PartialEq, Eq)]
pub struct Reposition {
    pub device_name: String,
    pub x: i64,
    pub y: i64,
}

/// What making a monitor primary takes.
#[derive(Debug, Clone, PartialEq, Eq)]
pub enum PrimarySwitchPlan {
    /// The monitor is primary and already in the requested mode.
    AlreadyPrimary,
    /// The monitor is primary; only its mode changes.
    ModeOnly(ModeRequest),
    /// Move the target to the origin as primary, move every other monitor by
    /// the same offset, commit, then set the target's mode if it changes.
    Switch { target_device: String, repositions: Vec<Reposition>, then_mode: Option<ModeRequest> },
}

impl ModeRequest {
    pub open spec fn is(self, device: Seq<char>, w: u16, h: u16, r: u16, o: u32) -> bool {
        &&& self.device_name@ == device
        &&& self.width == w
        &&& self.height == h
        &&& self.refresh_rate == r
        &&& self.orientation == o
    }
}

/// Index of the first monitor with the given label.
pub open spec fn monitor_with_index(monitors: Seq<MonitorInfo>, index: u8) -> Option<int> {
    if exists|i: int| 0 <= i < monitors.len() && (#[trigger] monitors[i]).index == index {
        Some(
            choose|i: int|
                0 <= i < monitors.len() && monitors[i].index == index && forall|j: int|
                    0 <= j < i ==> (#[trigger] monitors[j]).index != index,
        )
    } else {
        None
    }
}

proof fn lemma_monitor_with_index(monitors: Seq<MonitorInfo>, index: u8, i: int)
    requires
        0 <= i < monitors.len(),
        monitors[i].index == index,
        forall|j: int| 0 <= j < i ==> (#[trigger] monitors[j]).index != index,
    ensures
        monitor_with_index(monitors, index) == Some(i),
{
    let f = choose|f: int|
        0 <= f < monitors.len() && monitors[f].index == index && forall|j: int|
            0 <= j < f ==> (#[trigger] monitors[j]).index != index;
    if f < i {
        assert(monitors[f].index == index);
    } else if i < f {
        assert(monitors[i].index == index);
    }
}

/// Finds the first monitor with the given label.
fn find_monitor(monitors: &Vec<MonitorInfo>, index: u8) -> (res: Option<usize>)
    ensures
        match res {
            Some(i) => i < monitors@.len() && monitor_with_index(monitors@, index) == Some(i as int),
            None => monitor_with_index(monitors@, index) is None,
        },
{
    let mut i: usize = 0;
    while i < monitors.len()
        invariant
            i <= monitors@.len(),
            forall|j: int| 0 <= j < i ==> (#[trigger] monitors@[j]).index != index,
        decreases monitors@.len() - i,
    {
        if monitors[i].index == index {
            proof {
                lemma_monitor_with_index(monitors@, index, i as int);
            }
            return Some(i);
        }
        i = i + 1;
    }
    None
}

/// The width, height and refresh rate asked for, each defaulting to the
/// monitor's current one.
pub open spec fn requested_mode(
    target: MonitorInfo,
    resolution: Option<[u16; 2]>,
    refresh_rate: Option<u16>,
) -> (u16, u16, u16) {
    match resolution {
        Some(r) => (r[0], r[1], match refresh_rate {
            Some(f) => f,
            None => target.refresh_rate,
        }),
        None => (target.resolution.0, target.resolution.1, match refresh_rate {
            Some(f) => f,
            None => target.refresh_rate,
        }),
    }
}

/// Whether the requested mode differs from the monitor's current one.
pub open spec fn mode_differs(target: MonitorInfo, w: u16, h: u16, r: u16, o: u32) -> bool {
    w != target.resolution.0 || h != target.resolution.1 || r != target.refresh_rate || o
        != target.display_orientation
}

fn requested_values(
    target: &MonitorInfo,
    resolution: Option<[u16; 2]>,
    refresh_rate: Option<u16>,
) -> (res: (u16, u16, u16))
    ensures
        res == requested_mode(*target, resolution, refresh_rate),
{
    let (w, h) = match resolution {
        Some(r) => (r[0], r[1]),
        None => (target.resolution.0, target.resolution.1),
    };
    let f = match refresh_rate {
        Some(f) => f,
        None => target.refresh_rate,
    };
    (w, h, f)
}

fn copy_string(s: &String) -> (t: String)
    ensures
        t@ == s@,
{
    s.clone()
}

/// Plans a mode change on the monitor with the given label: `Ok(None)` when
/// it already shows the requested mode. Unset values keep the monitor's
/// current ones; the orientation follows the requested resolution and flip.
pub fn set_monitor_mode(
    monitors: &Vec<MonitorInfo>,
    target_index: u8,
    resolution: Option<[u16; 2]>,
    refresh_rate: Option<u16>,
    flip_orientation: bool,
) -> (res: Result<Option<ModeRequest>, DisplayError>)
    ensures
        monitor_with_index(monitors@, target_index) is None ==> res == Err::<
            Option<ModeRequest>,
            DisplayError,
        >(DisplayError::MonitorNotFound { index: target_index }),
        monitor_with_index(monitors@, target_index) matches Some(i) ==> {
            let t = monitors@[i];
            let (w, h, r) = requested_mode(t, resolution, refresh_rate);
            let o = spec_desired_display_orientation(w, h, flip_orientation);
            &&& !mode_differs(t, w, h, r, o) ==> res == Ok::<
                Option<ModeRequest>,
                DisplayError,
            >(None)
            &&& mode_differs(t, w, h, r, o) ==> (res matches Ok(Some(req)) && req.is(
                t.device_name@,
                w,
                h,
                r,
                o,
            ))
        },
{
    let ti = match find_monitor(monitors, target_index) {
        Some(i) => i,
        None => return Err(DisplayError::MonitorNotFound { index: target_index }),
    };
    let target = &monitors[ti];
    let (w, h, r) = requested_values(target, resolution, refresh_rate);
    let o = desired_display_orientation(w, h, flip_orientation);
    let change = w != target.resolution.0 || h != target.resolution.1 || r != target.refresh_rate
        || o != target.display_orientation;
    if !change {
        return Ok(None);
    }
    Ok(
        Some(
            ModeRequest {
                device_name: copy_string(&target.device_name),
                width: w,
                height: h,
                refresh_rate: r,
                orientation: o,
            },
        ),
    )
}

/// The monitors other than those carrying the target's label, moved by
/// `(dx, dy)`, in order.
pub open spec fn repositions_spec(monitors: Seq<MonitorInfo>, label: u8, dx: int, dy: int) -> Seq<
    (Seq<char>, int, int),
>
    decreases monitors.len(),
{
    if monitors.len() == 0 {
        seq![]
    } else {
        let rest = repositions_spec(monitors.drop_last(), label, dx, dy);
        let m = monitors.last();
        if m.index == label {
            rest
        } else {
            rest.push((m.device_name@, m.position.0 - dx, m.position.1 - dy))
        }
    }
}

/// Making a monitor primary moves every other monitor (every one whose
/// label differs from the target's, wherever it stands in the list) by the
/// same offset, in order; none is left out and none is added.
pub proof fn law_every_other_monitor_moves(monitors: Seq<MonitorInfo>, label: u8, dx: int, dy: int)
    ensures
        repositions_spec(monitors, label, dx, dy) == monitors.filter(
            |m: MonitorInfo| m.index != label,
        ).map_values(|m: MonitorInfo| (m.device_name@, m.position.0 - dx, m.position.1 - dy)),
        repositions_spec(monitors, label, dx, dy).len() == monitors.filter(
            |m: MonitorInfo| m.index != label,
        ).len(),
    decreases monitors.len(),
{
    let other = |m: MonitorInfo| m.index != label;
    let moved = |m: MonitorInfo| (m.device_name@, m.position.0 - dx, m.position.1 - dy);
    if monitors.len() == 0 {
        reveal(Seq::filter);
        assert(monitors.filter(other) =~= Seq::<MonitorInfo>::empty());
        assert(monitors.filter(other).map_values(moved) =~= Seq::<(Seq<char>, int, int)>::empty());
    } else {
        law_every_other_monitor_moves(monitors.drop_last(), label, dx, dy);
        let m = monitors.last();
        let f = monitors.drop_last().filter(other);
        assert(monitors =~= monitors.drop_last().push(m));
        monitors.drop_last().lemma_filter_push(m, other);
        assert(monitors.filter(other) == if other(m) {
            f.push(m)
        } else {
            f
        });
        assert(f.push(m).map_values(moved) =~= f.map_values(moved).push(moved(m)));
    }
}

/// Making a monitor that is not primary yet the primary one switches to it
/// and moves every monitor with another label by minus the target's
/// position, so that the target ends at the origin and the others keep their
/// places around it.
pub proof fn law_switch_moves_others_around_target(
    plan: PrimarySwitchPlan,
    monitors: Seq<MonitorInfo>,
    t: MonitorInfo,
    w: u16,
    h: u16,
    r: u16,
    o: u32,
)
    requires
        primary_plan_matches(plan, monitors, t, w, h, r, o),
        !t.is_primary,
    ensures
        plan matches PrimarySwitchPlan::Switch { target_device, repositions, .. } && target_device@
            == t.device_name@ && repositions@.map_values(|p: Reposition| reposition_view(p))
            == monitors.filter(|m: MonitorInfo| m.index != t.index).map_values(
            |m: MonitorInfo|
                (m.device_name@, m.position.0 - t.position.0, m.position.1 - t.position.1),
        ),
{
    law_every_other_monitor_moves(monitors, t.index, t.position.0 as int, t.position.1 as int);
}

pub open spec fn reposition_view(r: Reposition) -> (Seq<char>, int, int) {
    (r.device_name@, r.x as int, r.y as int)
}

/// The plan for making a monitor primary (see `set_primary_monitor`).
pub open spec fn primary_plan_matches(
    plan: PrimarySwitchPlan,
    monitors: Seq<MonitorInfo>,
    t: MonitorInfo,
    w: u16,
    h: u16,
    r: u16,
    o: u32,
) -> bool {
    let change = mode_differs(t, w, h, r, o);
    if t.is_primary && !change {
        plan == PrimarySwitchPlan::AlreadyPrimary
    } else if t.is_primary {
        plan matches PrimarySwitchPlan::ModeOnly(req) && req.is(t.device_name@, w, h, r, o)
    } else {
        match plan {
            PrimarySwitchPlan::Switch { target_device, repositions, then_mode } => {
                &&& target_device@ == t.device_name@
                &&& repositions@.map_values(|p: Reposition| reposition_view(p)) == repositions_spec(
                    monitors,
                    t.index,
                    t.position.0 as int,
                    t.position.1 as int,
                )
                &&& change ==> (then_mode matches Some(req) && req.is(t.device_name@, w, h, r, o))
                &&& !change ==> then_mode is None
            },
            _ => false,
        }
    }
}

fn plan_repositions(monitors: &Vec<MonitorInfo>, label: u8, dx: i32, dy: i32) -> (out: Vec<
    Reposition,
>)
    ensures
        out@.map_values(|p: Reposition| reposition_view(p)) == repositions_spec(
            monitors@,
            label,
            dx as int,
            dy as int,
        ),
{
    let mut out: Vec<Reposition> = Vec::new();
    let mut i: usize = 0;
    while i < monitors.len()
        invariant
            i <= monitors@.len(),
            out@.map_values(|p: Reposition| reposition_view(p)) == repositions_spec(
                monitors@.take(i as int),
                label,
                dx as int,
                dy as int,
            ),
        decreases monitors@.len() - i,
    {
        let m = &monitors[i];
        let ghost prev = out@;
        assert(monitors@.take(i + 1).drop_last() =~= monitors@.take(i as int));
        if m.index != label {
            let x = m.position.0 as i64 - dx as i64;
            let y = m.position.1 as i64 - dy as i64;
            out.push(Reposition { device_name: copy_string(&m.device_name), x, y });
            assert(out@.map_values(|p: Reposition| reposition_view(p)) =~= prev.map_values(
                |p: Reposition| reposition_view(p),
            ).push(reposition_view(out@.last())));
        }
        i = i + 1;
    }
    assert(monitors@.take(i as int) =~= monitors@);
    out
}

/// Plans making the monitor with the given label primary, with an optional
/// orientation that overrides the one derived from the requested resolution.
pub fn set_primary_monitor_with_orientation(
    monitors: &Vec<MonitorInfo>,
    target_index: u8,
    resolution: Option<[u16; 2]>,
    refresh_rate: Option<u16>,
    flip_orientation: bool,
    orientation_override: Option<u32>,
) -> (res: Result<PrimarySwitchPlan, DisplayError>)
    ensures
        monitor_with_index(monitors@, target_index) is None ==> res == Err::<
            PrimarySwitchPlan,
            DisplayError,
        >(DisplayError::MonitorNotFound { index: target_index }),
        monitor_with_index(monitors@, target_index) matches Some(i) ==> {
            let t = monitors@[i];
            let (w, h, r) = requested_mode(t, resolution, refresh_rate);
            let o = match orientation_override {
                Some(o) => o,
                None => spec_desired_display_orientation(w, h, flip_orientation),
            };
            res matches Ok(plan) && primary_plan_matches(plan, monitors@, t, w, h, r, o)
        },
{
    let ti = match find_monitor(monitors, target_index) {
        Some(i) => i,
        None => return Err(DisplayError::MonitorNotFound { index: target_index }),
    };
    let target = &monitors[ti];
    let (w, h, r) = requested_values(target, resolution, refresh_rate);
    let o = match orientation_override {
        Some(o) => o,
        None => desired_display_orientation(w, h, flip_orientation),
    };
    let change = w != target.resolution.0 || h != target.resolution.1 || r != target.refresh_rate
        || o != target.display_orientation;
    if target.is_primary && !change {
        return Ok(PrimarySwitchPlan::AlreadyPrimary);
    }
    let request = ModeRequest {
        device_name: copy_string(&target.device_name),
        width: w,
        height: h,
        refresh_rate: r,
        orientation: o,
    };
    if target.is_primary {
        return Ok(PrimarySwitchPlan::ModeOnly(request));
    }
    let repositions = plan_repositions(monitors, target.index, target.position.0, target.position.1);
    let then_mode = if change {
        Some(request)
    } else {
        None
    };
    Ok(
        PrimarySwitchPlan::Switch {
            target_device: copy_string(&target.device_name),
            repositions,
            then_mode,
        },
    )
}

/// Plans making the monitor with the given label primary in the requested
/// mode (the orientation follows the resolution and the flip).
pub fn set_primary_monitor(
    monitors: &Vec<MonitorInfo>,
    target_index: u8,
    resolution: Option<[u16; 2]>,
    refresh_rate: Option<u16>,
    flip_orientation: bool,
) -> (res: Result<PrimarySwitchPlan, DisplayError>)
    ensures
        monitor_with_index(monitors@, target_index) is None ==> res == Err::<
            PrimarySwitchPlan,
            DisplayError,
        >(DisplayError::MonitorNotFound { index: target_index }),
        monitor_with_index(monitors@, target_index) matches Some(i) ==> {
            let t = monitors@[i];
            let (w, h, r) = requested_mode(t, resolution, refresh_rate);
            let o = spec_desired_display_orientation(w, h, flip_orientation);
            res matches Ok(plan) && primary_plan_matches(plan, monitors@, t, w, h, r, o)
        },
{
    set_primary_monitor_with_orientation(
        monitors,
        target_index,
        resolution,
        refresh_rate,
        flip_orientation,
        None,
    )
}

/// Index of the first primary monitor.
pub open spec fn primary_monitor(monitors: Seq<MonitorInfo>) -> Option<int> {
    if exists|i: int| 0 <= i < monitors.len() && (#[trigger] monitors[i]).is_primary {
        Some(
            choose|i: int|
                0 <= i < monitors.len() && monitors[i].is_primary && forall|j: int|
                    0 <= j < i ==> !(#[trigger] monitors[j]).is_primary,
        )
    } else {
        None
    }
}

/// The saved mode of a monitor: its resolution written the way round that
/// its orientation shows it.
pub open spec fn mode_snapshot_of(m: MonitorInfo) -> (Seq<char>, (u16, u16), u16, u32) {
    (
        m.device_name@,
        spec_normalize_resolution_for_orientation(m.resolution, m.display_orientation),
        m.refresh_rate,
        m.display_orientation,
    )
}

pub open spec fn mode_snapshot_view(s: DisplayModeSnapshot) -> (Seq<char>, (u16, u16), u16, u32) {
    (s.device_name@, s.resolution, s.refresh_rate, s.display_orientation)
}

/// `snap` records monitor `p` of `monitors` as primary, and every monitor's mode.
pub open spec fn is_snapshot_of(snap: DisplaySnapshot, monitors: Seq<MonitorInfo>, p: int) -> bool {
    let m = monitors[p];
    &&& snap.primary == m.index
    &&& snap.primary_device_name@ == m.device_name@
    &&& snap.resolution == spec_normalize_resolution_for_orientation(
        m.resolution,
        m.display_orientation,
    )
    &&& snap.refresh_rate == m.refresh_rate
    &&& snap.flip_orientation == spec_is_flipped_orientation(m.display_orientation)
    &&& snap.display_orientation == m.display_orientation
    &&& snap.monitor_modes@.map_values(|s: DisplayModeSnapshot| mode_snapshot_view(s))
        == monitors.map_values(|m: MonitorInfo| mode_snapshot_of(m))
}

/// The display state to restore later: the first primary monitor and the
/// mode of every monitor.
pub fn current_primary_snapshot(monitors: &Vec<MonitorInfo>) -> (res: Result<
    DisplaySnapshot,
    DisplayError,
>)
    ensures
        primary_monitor(monitors@) is None ==> res == Err::<DisplaySnapshot, DisplayError>(
            DisplayError::NoPrimaryMonitor,
        ),
        primary_monitor(monitors@) matches Some(p) ==> (res matches Ok(snap) && is_snapshot_of(
            snap,
            monitors@,
            p,
        )),
{
    let mut p: usize = 0;
    while p < monitors.len() && !monitors[p].is_primary
        invariant
            p <= monitors@.len(),
            forall|j: int| 0 <= j < p ==> !(#[trigger] monitors@[j]).is_primary,
        decreases monitors@.len() - p,
    {
        p = p + 1;
    }
    if p == monitors.len() {
        return Err(DisplayError::NoPrimaryMonitor);
    }
    proof {
        let f = choose|i: int|
            0 <= i < monitors@.len() && monitors@[i].is_primary && forall|j: int|
                0 <= j < i ==> !(#[trigger] monitors@[j]).is_primary;
        assert(monitors@[p as int].is_primary);
        if f < p {
            assert(monitors@[f].is_primary);
        } else if p < f {
            assert(monitors@[p as int].is_primary);
        }
    }
    let mut modes: Vec<DisplayModeSnapshot> = Vec::new();
    let mut i: usize = 0;
    while i < monitors.len()
        invariant
            i <= monitors@.len(),
            modes@.map_values(|s: DisplayModeSnapshot| mode_snapshot_view(s)) == monitors@.take(
                i as int,
            ).map_values(|m: MonitorInfo| mode_snapshot_of(m)),
        decreases monitors@.len() - i,
    {
        let m = &monitors[i];
        let ghost prev = modes@;
        modes.push(
            DisplayModeSnapshot {
                device_name: copy_string(&m.device_name),
                resolution: normalize_resolution_for_orientation(m.resolution, m.display_orientation),
                refresh_rate: m.refresh_rate,
                display_orientation: m.display_orientation,
            },
        );
        assert(monitors@.take(i + 1).map_values(|m: MonitorInfo| mode_snapshot_of(m))
            =~= monitors@.take(i as int).map_values(|m: MonitorInfo| mode_snapshot_of(m)).push(
            mode_snapshot_of(monitors@[i as int])));
        assert(modes@.map_values(|s: DisplayModeSnapshot| mode_snapshot_view(s)) =~= prev.map_values(
            |s: DisplayModeSnapshot| mode_snapshot_view(s),
        ).push(mode_snapshot_view(modes@.last())));
        i = i + 1;
    }
    assert(monitors@.take(i as int) =~= monitors@);
    let m = &monitors[p];
    Ok(
        DisplaySnapshot {
            primary: m.index,
            primary_device_name: copy_string(&m.device_name),
            resolution: normalize_resolution_for_orientation(m.resolution, m.display_orientation),
            refresh_rate: m.refresh_rate,
            flip_orientation: is_flipped_orientation(m.display_orientation),
            display_orientation: m.display_orientation,
            monitor_modes: modes,
        },
    )
}

/// How to bring back a saved display state.
#[derive(Debug, PartialEq, Eq)]
pub struct RestorePlan {
    /// Label of the monitor to make primary again.
    pub primary_index: u8,
    pub resolution: [u16; 2],
    pub refresh_rate: u16,
    pub flip_orientation: bool,
    pub orientation: u32,
    /// Modes to set on the other monitors that are still present, in order.
    pub mode_restores: Vec<ModeRequest>,
    /// Saved monitors that are no longer present, in order.
    pub missing_devices: Vec<String>,
}

/// Index of the last monitor with the given device name.
pub open spec fn last_monitor_named(monitors: Seq<MonitorInfo>, name: Seq<char>) -> Option<int>
    decreases monitors.len(),
{
    if monitors.len() == 0 {
        None
    } else if monitors.last().device_name@ == name {
        Some(monitors.len() - 1)
    } else {
        last_monitor_named(monitors.drop_last(), name)
    }
}

/// Whether some monitor has the given device name.
pub open spec fn has_monitor_named(monitors: Seq<MonitorInfo>, name: Seq<char>) -> bool {
    exists|i: int| 0 <= i < monitors.len() && (#[trigger] monitors[i]).device_name@ == name
}

proof fn lemma_last_monitor_named(monitors: Seq<MonitorInfo>, name: Seq<char>)
    ensures
        last_monitor_named(monitors, name) is Some <==> has_monitor_named(monitors, name),
        last_monitor_named(monitors, name) matches Some(i) ==> 0 <= i < monitors.len()
            && monitors[i].device_name@ == name,
    decreases monitors.len(),
{
    if monitors.len() > 0 {
        let p = monitors.drop_last();
        lemma_last_monitor_named(p, name);
        if monitors.last().device_name@ != name {
            if has_monitor_named(monitors, name) {
                let i = choose|i: int|
                    0 <= i < monitors.len() && (#[trigger] monitors[i]).device_name@ == name;
                assert(i < monitors.len() - 1);
                assert(p[i] == monitors[i]);
            }
            if has_monitor_named(p, name) {
                let i = choose|i: int| 0 <= i < p.len() && (#[trigger] p[i]).device_name@ == name;
                assert(p[i] == monitors[i]);
            }
        } else {
            assert(monitors[monitors.len() - 1] == monitors.last());
        }
    }
}

/// The saved modes to set again: those of monitors other than the saved
/// primary that are still present, in order.
pub open spec fn restores_spec(modes: Seq<DisplayModeSnapshot>, primary: Seq<char>, monitors: Seq<MonitorInfo>) -> Seq<(Seq<char>, u16, u16, u16, u32)>
    decreases modes.len(),
{
    if modes.len() == 0 {
        seq![]
    } else {
        let rest = restores_spec(modes.drop_last(), primary, monitors);
        let m = modes.last();
        if m.device_name@ == primary || !has_monitor_named(monitors, m.device_name@) {
            rest
        } else {
            rest.push((m.device_name@, m.resolution.0, m.resolution.1, m.refresh_rate, m.display_orientation))
        }
    }
}

/// The saved monitors, other than the saved primary, that are gone.
pub open spec fn missing_spec(modes: Seq<DisplayModeSnapshot>, primary: Seq<char>, monitors: Seq<MonitorInfo>) -> Seq<Seq<char>>
    decreases modes.len(),
{
    if modes.len() == 0 {
        seq![]
    } else {
        let rest = missing_spec(modes.drop_last(), primary, monitors);
        let m = modes.last();
        if m.device_name@ != primary && !has_monitor_named(monitors, m.device_name@) {
            rest.push(m.device_name@)
        } else {
            rest
        }
    }
}

/// Bringing back a saved state sets again, in the saved order, the saved
/// mode of every saved monitor other than the saved primary that is still
/// present: its saved resolution, refresh rate and orientation, whatever
/// the monitor shows now. Every other saved monitor that is gone is
/// reported missing, in order.
pub proof fn law_restore_uses_saved_modes(
    modes: Seq<DisplayModeSnapshot>,
    primary: Seq<char>,
    monitors: Seq<MonitorInfo>,
)
    ensures
        restores_spec(modes, primary, monitors) == modes.filter(
            |m: DisplayModeSnapshot|
                m.device_name@ != primary && has_monitor_named(monitors, m.device_name@),
        ).map_values(
            |m: DisplayModeSnapshot|
                (m.device_name@, m.resolution.0, m.resolution.1, m.refresh_rate, m.display_orientation),
        ),
        missing_spec(modes, primary, monitors) == modes.filter(
            |m: DisplayModeSnapshot|
                m.device_name@ != primary && !has_monitor_named(monitors, m.device_name@),
        ).map_values(|m: DisplayModeSnapshot| m.device_name@),
    decreases modes.len(),
{
    let keep = |m: DisplayModeSnapshot|
        m.device_name@ != primary && has_monitor_named(monitors, m.device_name@);
    let gone = |m: DisplayModeSnapshot|
        m.device_name@ != primary && !has_monitor_named(monitors, m.device_name@);
    let view = |m: DisplayModeSnapshot|
        (m.device_name@, m.resolution.0, m.resolution.1, m.refresh_rate, m.display_orientation);
    let name = |m: DisplayModeSnapshot| m.device_name@;
    if modes.len() == 0 {
        reveal(Seq::filter);
        assert(modes.filter(keep) =~= Seq::<DisplayModeSnapshot>::empty());
        assert(modes.filter(gone) =~= Seq::<DisplayModeSnapshot>::empty());
        assert(modes.filter(keep).map_values(view) =~= Seq::<(Seq<char>, u16, u16, u16, u32)>::empty());
        assert(modes.filter(gone).map_values(name) =~= Seq::<Seq<char>>::empty());
    } else {
        law_restore_uses_saved_modes(modes.drop_last(), primary, monitors);
        let m = modes.last();
        let fk = modes.drop_last().filter(keep);
        let fg = modes.drop_last().filter(gone);
        assert(modes =~= modes.drop_last().push(m));
        modes.drop_last().lemma_filter_push(m, keep);
        modes.drop_last().lemma_filter_push(m, gone);
        assert(modes.filter(keep) == if keep(m) {
            fk.push(m)
        } else {
            fk
        });
        assert(modes.filter(gone) == if gone(m) {
            fg.push(m)
        } else {
            fg
        });
        assert(fk.push(m).map_values(view) =~= fk.map_values(view).push(view(m)));
        assert(fg.push(m).map_values(name) =~= fg.map_values(name).push(name(m)));
    }
}

pub open spec fn mode_request_view(r: ModeRequest) -> (Seq<char>, u16, u16, u16, u32) {
    (r.device_name@, r.width, r.height, r.refresh_rate, r.orientation)
}

fn last_named(monitors: &Vec<MonitorInfo>, name: &String) -> (res: Option<usize>)
    ensures
        match res {
            Some(i) => last_monitor_named(monitors@, name@) == Some(i as int) && i < monitors@.len(),
            None => last_monitor_named(monitors@, name@) is None,
        },
{
    proof {
        lemma_last_monitor_named(monitors@, name@);
    }
    let mut i = monitors.len();
    assert(monitors@.take(i as int) =~= monitors@);
    while i > 0
        invariant
            i <= monitors@.len(),
            last_monitor_named(monitors@, name@) == last_monitor_named(monitors@.take(i as int), name@),
        decreases i,
    {
        assert(monitors@.take(i as int).drop_last() =~= monitors@.take(i - 1));
        if monitors[i - 1].device_name == *name {
            return Some(i - 1);
        }
        i = i - 1;
    }
    None
}

/// Plans bringing back a saved display state on the monitors present now.
/// The saved primary is found again by device name (its saved label when it
/// is gone) and gets its saved mode; the other saved monitors that are still
/// present get theirs; the others are reported missing.
pub fn restore_display_snapshot(snapshot: &DisplaySnapshot, monitors: &Vec<MonitorInfo>) -> (plan:
    RestorePlan)
    ensures
        plan.primary_index == match last_monitor_named(monitors@, snapshot.primary_device_name@) {
            Some(i) => monitors@[i].index,
            None => snapshot.primary,
        },
        plan.resolution == [snapshot.resolution.0, snapshot.resolution.1],
        plan.refresh_rate == snapshot.refresh_rate,
        plan.flip_orientation == snapshot.flip_orientation,
        plan.orientation == snapshot.display_orientation,
        plan.mode_restores@.map_values(|r: ModeRequest| mode_request_view(r)) == restores_spec(
            snapshot.monitor_modes@,
            snapshot.primary_device_name@,
            monitors@,
        ),
        plan.missing_devices@.map_values(|d: String| d@) == missing_spec(
            snapshot.monitor_modes@,
            snapshot.primary_device_name@,
            monitors@,
        ),
{
    let primary_index = match last_named(monitors, &snapshot.primary_device_name) {
        Some(i) => monitors[i].index,
        None => snapshot.primary,
    };
    let ghost modes = snapshot.monitor_modes@;
    let ghost primary = snapshot.primary_device_name@;
    let mut restores: Vec<ModeRequest> = Vec::new();
    let mut missing: Vec<String> = Vec::new();
    let mut i: usize = 0;
    while i < snapshot.monitor_modes.len()
        invariant
            i <= modes.len(),
            modes == snapshot.monitor_modes@,
            primary == snapshot.primary_device_name@,
            restores@.map_values(|r: ModeRequest| mode_request_view(r)) == restores_spec(
                modes.take(i as int),
                primary,
                monitors@,
            ),
            missing@.map_values(|d: String| d@) == missing_spec(modes.take(i as int), primary, monitors@),
        decreases modes.len() - i,
    {
        let m = &snapshot.monitor_modes[i];
        assert(modes.take(i + 1).drop_last() =~= modes.take(i as int));
        let ghost prev_r = restores@;
        let ghost prev_m = missing@;
        if m.device_name != snapshot.primary_device_name {
            let present = last_named(monitors, &m.device_name);
            proof {
                lemma_last_monitor_named(monitors@, m.device_name@);
            }
            match present {
                Some(_) => {
                    restores.push(
                        ModeRequest {
                            device_name: copy_string(&m.device_name),
                            width: m.resolution.0,
                            height: m.resolution.1,
                            refresh_rate: m.refresh_rate,
                            orientation: m.display_orientation,
                        },
                    );
                    assert(restores@.map_values(|r: ModeRequest| mode_request_view(r)) =~= prev_r.map_values(
                        |r: ModeRequest| mode_request_view(r),
                    ).push(mode_request_view(restores@.last())));
                },
                None => {
                    missing.push(copy_string(&m.device_name));
                    assert(missing@.map_values(|d: String| d@) =~= prev_m.map_values(|d: String| d@).push(
                        missing@.last()@,
                    ));
                },
            }
        }
        i = i + 1;
    }
    assert(modes.take(i as int) =~= modes);
    RestorePlan {
        primary_index,
        resolution: [snapshot.resolution.0, snapshot.resolution.1],
        refresh_rate: snapshot.refresh_rate,
        flip_orientation: snapshot.flip_orientation,
        orientation: snapshot.display_orientation,
        mode_restores: restores,
        missing_devices: missing,
    }
}

/// How one attempt at setting a mode goes about it.
#[derive(Debug, Clone, Copy, PartialEq, Eq)]
pub enum ModeStrategy {
    /// Orientation, resolution and refresh rate in one change.
    SinglePass,
    /// The orientation first (keeping the resolution the way round it shows),
    /// then the whole mode.
    OrientationFirst,
}

/// One attempt at setting a mode.
#[derive(Debug, Clone, Copy, PartialEq, Eq)]
pub struct ModeAttempt {
    pub strategy: ModeStrategy,
    pub width: u16,
    pub height: u16,
}

/// The attempts at setting a mode, in the order to try them until one
/// succeeds: one pass with the resolution as given and (for a non-square one)
/// turned round, then orientation-first with each.
pub open spec fn attempts_spec(width: u16, height: u16) -> Seq<ModeAttempt> {
    let sp = |w: u16, h: u16| ModeAttempt { strategy: ModeStrategy::SinglePass, width: w, height: h };
    let of = |w: u16, h: u16| ModeAttempt { strategy: ModeStrategy::OrientationFirst, width: w, height: h };
    if width != height {
        seq![sp(width, height), sp(height, width), of(width, height), of(height, width)]
    } else {
        seq![sp(width, height), of(width, height)]
    }
}

pub fn mode_attempts(width: u16, height: u16) -> (attempts: Vec<ModeAttempt>)
    ensures
        attempts@ == attempts_spec(width, height),
{
    let mut attempts: Vec<ModeAttempt> = Vec::new();
    attempts.push(ModeAttempt { strategy: ModeStrategy::SinglePass, width, height });
    if width != height {
        attempts.push(
            ModeAttempt { strategy: ModeStrategy::SinglePass, width: height, height: width },
        );
    }
    attempts.push(ModeAttempt { strategy: ModeStrategy::OrientationFirst, width, height });
    if width != height {
        attempts.push(
            ModeAttempt { strategy: ModeStrategy::OrientationFirst, width: height, height: width },
        );
    }
    assert(attempts@ =~= attempts_spec(width, height));
    attempts
}

/// The decimal digit `d`.
pub open spec fn digit_char(d: nat) -> char {
    seq!['0', '1', '2', '3', '4', '5', '6', '7', '8', '9'][d as int]
}

/// `n` written in decimal, without leading zeros.
pub open spec fn decimal_text(n: nat) -> Seq<char>
    decreases n,
{
    if n < 10 {
        seq![digit_char(n)]
    } else {
        decimal_text(n / 10).push(digit_char(n % 10))
    }
}

fn decimal(n: u64) -> (s: Vec<char>)
    ensures
        s@ == decimal_text(n as nat),
    decreases n,
{
    let digits: [char; 10] = ['0', '1', '2', '3', '4', '5', '6', '7', '8', '9'];
    assert(digits@ =~= seq!['0', '1', '2', '3', '4', '5', '6', '7', '8', '9']);
    if n < 10 {
        let mut v: Vec<char> = Vec::new();
        v.push(digits[n as usize]);
        assert(v@ =~= seq![digit_char(n as nat)]);
        v
    } else {
        let mut v = decimal(n / 10);
        v.push(digits[(n % 10) as usize]);
        v
    }
}

/// `n` written in decimal, with a `-` before it when it is negative.
pub open spec fn signed_decimal_text(n: int) -> Seq<char> {
    if n < 0 {
        seq!['-'] + decimal_text((-n) as nat)
    } else {
        decimal_text(n as nat)
    }
}

fn signed_decimal(n: i32) -> (s: Vec<char>)
    ensures
        s@ == signed_decimal_text(n as int),
{
    if n < 0 {
        let m: i64 = -(n as i64);
        let digits = decimal(m as u64);
        let mut v: Vec<char> = Vec::new();
        v.push('-');
        push_all(&mut v, digits.as_slice());
        assert(v@ =~= seq!['-'] + decimal_text((-n) as nat));
        v
    } else {
        decimal(n as u64)
    }
}

/// The name of a strategy in failure reports.
pub open spec fn strategy_label(strategy: ModeStrategy) -> Seq<char> {
    match strategy {
        ModeStrategy::SinglePass => "single-pass"@,
        ModeStrategy::OrientationFirst => "orientation-first"@,
    }
}

/// The report of one failed attempt:
/// `<strategy> <width>x<height>@<refresh>Hz failed: <error>`.
pub open spec fn attempt_failure_text(attempt: ModeAttempt, refresh_rate: u16, error: Seq<char>) -> Seq<
    char,
> {
    strategy_label(attempt.strategy) + seq![' '] + decimal_text(attempt.width as nat) + seq!['x']
        + decimal_text(attempt.height as nat) + seq!['@'] + decimal_text(refresh_rate as nat)
        + "Hz failed: "@ + error
}

/// Reports one failed attempt at setting a mode.
pub fn attempt_failure_message(attempt: ModeAttempt, refresh_rate: u16, error: &str) -> (m: String)
    ensures
        m@ == attempt_failure_text(attempt, refresh_rate, error@),
{
    let mut out: Vec<char> = Vec::new();
    let label = match attempt.strategy {
        ModeStrategy::SinglePass => "single-pass",
        ModeStrategy::OrientationFirst => "orientation-first",
    };
    proof {
        reveal_strlit("single-pass");
        reveal_strlit("orientation-first");
        reveal_strlit("Hz failed: ");
    }
    let l = chars_of(label);
    push_all(&mut out, l.as_slice());
    push_all(&mut out, &[' ']);
    let w = decimal(attempt.width as u64);
    push_all(&mut out, w.as_slice());
    push_all(&mut out, &['x']);
    let h = decimal(attempt.height as u64);
    push_all(&mut out, h.as_slice());
    push_all(&mut out, &['@']);
    let r = decimal(refresh_rate as u64);
    push_all(&mut out, r.as_slice());
    let tail = chars_of("Hz failed: ");
    push_all(&mut out, tail.as_slice());
    let e = chars_of(error);
    push_all(&mut out, e.as_slice());
    string_from_chars(out.as_slice())
}

/// The error when every attempt failed: the attempts' reports joined by
/// `" | "` after a heading.
pub open spec fn fallback_failure_text(failures: Seq<Seq<char>>) -> Seq<char> {
    "failed to apply monitor mode after fallback attempts: "@ + join(failures, seq![' ', '|', ' '])
}

/// Reports that no attempt at setting a mode succeeded.
pub fn fallback_failure_message(failures: &Vec<String>) -> (m: String)
    ensures
        m@ == fallback_failure_text(failures@.map_values(|f: String| f@)),
{
    let mut parts: Vec<Vec<char>> = Vec::new();
    let mut i: usize = 0;
    while i < failures.len()
        invariant
            i <= failures@.len(),
            parts.deep_view() == failures@.take(i as int).map_values(|f: String| f@),
        decreases failures@.len() - i,
    {
        let c = chars_of(failures[i].as_str());
        let ghost prev = parts.deep_view();
        assert(c.deep_view() =~= c@);
        parts.push(c);
        assert(parts.deep_view() =~= prev.push(c@));
        assert(failures@.take(i + 1).map_values(|f: String| f@) =~= failures@.take(
            i as int,
        ).map_values(|f: String| f@).push(failures@[i as int]@));
        i = i + 1;
    }
    assert(failures@.take(i as int) =~= failures@);
    let joined = join_lines(&parts, &[' ', '|', ' ']);
    let mut out: Vec<char> = Vec::new();
    let head = "failed to apply monitor mode after fallback attempts: ";
    proof {
        reveal_strlit("failed to apply monitor mode after fallback attempts: ");
    }
    let hc = chars_of(head);
    push_all(&mut out, hc.as_slice());
    push_all(&mut out, joined.as_slice());
    assert(seq![' ', '|', ' '] =~= [' ', '|', ' ']@);
    string_from_chars(out.as_slice())
}

/// `a` comes before `b` in the order of `str`: lexicographic by characters
/// (UTF-8 keeps the order of code points, so this is the byte order of
/// `String`'s `Ord`).
pub open spec fn text_lt(a: Seq<char>, b: Seq<char>) -> bool
    decreases a.len(),
{
    if a.len() == 0 {
        b.len() > 0
    } else if b.len() == 0 {
        false
    } else if a[0] != b[0] {
        a[0] < b[0]
    } else {
        text_lt(a.drop_first(), b.drop_first())
    }
}

proof fn lemma_text_lt_irreflexive(a: Seq<char>)
    ensures
        !text_lt(a, a),
    decreases a.len(),
{
    if a.len() > 0 {
        lemma_text_lt_irreflexive(a.drop_first());
    }
}

proof fn lemma_text_lt_transitive(a: Seq<char>, b: Seq<char>, c: Seq<char>)
    requires
        text_lt(a, b),
        text_lt(b, c),
    ensures
        text_lt(a, c),
    decreases a.len(),
{
    if a.len() > 0 && b.len() > 0 && c.len() > 0 && a[0] == b[0] && b[0] == c[0] {
        lemma_text_lt_transitive(a.drop_first(), b.drop_first(), c.drop_first());
    }
}

/// The texts of a list of strings.
pub open spec fn texts(v: Seq<String>) -> Seq<Seq<char>> {
    v.map_values(|x: String| x@)
}

/// No text comes before one that stands ahead of it.
pub open spec fn sorted_texts(s: Seq<Seq<char>>) -> bool {
    forall|i: int, j: int| 0 <= i < j < s.len() ==> !text_lt(#[trigger] s[j], #[trigger] s[i])
}

/// `r` holds the texts of `s`, in order.
pub open spec fn is_sorted_arrangement(r: Seq<Seq<char>>, s: Seq<Seq<char>>) -> bool {
    r.to_multiset() == s.to_multiset() && sorted_texts(r)
}

proof fn lemma_text_lt_total(a: Seq<char>, b: Seq<char>)
    requires
        a != b,
    ensures
        text_lt(a, b) || text_lt(b, a),
    decreases a.len(),
{
    if a.len() > 0 && b.len() > 0 && a[0] == b[0] {
        if a.drop_first() == b.drop_first() {
            assert(a =~= seq![a[0]] + a.drop_first());
            assert(b =~= seq![b[0]] + b.drop_first());
        }
        lemma_text_lt_total(a.drop_first(), b.drop_first());
    } else if a.len() == 0 && b.len() == 0 {
        assert(a =~= b);
    }
}

/// Texts have one sorted arrangement only: two sorted lists that hold the
/// same texts are the same list.
pub proof fn lemma_sorted_arrangement_unique(r1: Seq<Seq<char>>, r2: Seq<Seq<char>>, s: Seq<Seq<char>>)
    requires
        is_sorted_arrangement(r1, s),
        is_sorted_arrangement(r2, s),
    ensures
        r1 == r2,
    decreases r1.len(),
{
    broadcast use vstd::seq_lib::group_to_multiset_ensures;

    assert(r1.to_multiset().len() == r1.len());
    assert(r2.to_multiset().len() == r2.len());
    if r1.len() == 0 {
        assert(r2.len() == 0);
        assert(r1 =~= r2);
    } else {
        assert(r2.len() == r1.len());
        let a = r1[0];
        let b = r2[0];
        assert(r1.to_multiset().count(a) > 0) by {
            assert(r1.contains(a));
        }
        assert(r2.to_multiset().count(b) > 0) by {
            assert(r2.contains(b));
        }
        assert(r2.contains(a));
        assert(r1.contains(b));
        if a != b {
            let j = choose|j: int| 0 <= j < r2.len() && r2[j] == a;
            let i = choose|i: int| 0 <= i < r1.len() && r1[i] == b;
            lemma_text_lt_total(a, b);
            if text_lt(a, b) {
                assert(j > 0);
                assert(!text_lt(r2[j], r2[0]));
            } else {
                assert(i > 0);
                assert(!text_lt(r1[i], r1[0]));
            }
        }
        let t1 = r1.drop_first();
        let t2 = r2.drop_first();
        assert(r1.remove(0) =~= t1);
        assert(r2.remove(0) =~= t2);
        assert(t1.to_multiset() == s.to_multiset().remove(a));
        assert(t2.to_multiset() == s.to_multiset().remove(a));
        assert(sorted_texts(t1)) by {
            assert forall|x: int, y: int| 0 <= x < y < t1.len() implies !text_lt(
                #[trigger] t1[y],
                #[trigger] t1[x],
            ) by {
                assert(t1[x] == r1[x + 1] && t1[y] == r1[y + 1]);
            }
        }
        assert(sorted_texts(t2)) by {
            assert forall|x: int, y: int| 0 <= x < y < t2.len() implies !text_lt(
                #[trigger] t2[y],
                #[trigger] t2[x],
            ) by {
                assert(t2[x] == r2[x + 1] && t2[y] == r2[y + 1]);
            }
        }
        lemma_sorted_arrangement_unique(t1, t2, t1);
        assert(r1 =~= seq![a] + t1);
        assert(r2 =~= seq![a] + t2);
    }
}

/// Whether `a` comes before `b` (`text_lt`).
fn text_less(a: &str, b: &str) -> (lt: bool)
    ensures
        lt == text_lt(a@, b@),
{
    let x = chars_of(a);
    let y = chars_of(b);
    let mut i: usize = 0;
    assert(x@.skip(0) =~= x@);
    assert(y@.skip(0) =~= y@);
    while i < x.len() && i < y.len() && x[i] == y[i]
        invariant
            i <= x@.len(),
            i <= y@.len(),
            text_lt(a@, b@) == text_lt(x@.skip(i as int), y@.skip(i as int)),
            x@ == a@,
            y@ == b@,
        decreases x@.len() - i,
    {
        assert(x@.skip(i as int).drop_first() =~= x@.skip(i + 1));
        assert(y@.skip(i as int).drop_first() =~= y@.skip(i + 1));
        assert(x@.skip(i as int)[0] == x@[i as int]);
        assert(y@.skip(i as int)[0] == y@[i as int]);
        i = i + 1;
    }
    if i < x.len() && i < y.len() {
        assert(x@.skip(i as int)[0] == x@[i as int]);
        assert(y@.skip(i as int)[0] == y@[i as int]);
        x[i] < y[i]
    } else {
        i == x.len() && i < y.len()
    }
}

/// The strings in order (`sort` on `String`s).
pub fn sorted_labels(labels: &Vec<String>) -> (out: Vec<String>)
    ensures
        is_sorted_arrangement(texts(out@), texts(labels@)),
{
    let mut out: Vec<String> = Vec::new();
    let mut i: usize = 0;
    assert(texts(labels@).take(0) =~= Seq::<Seq<char>>::empty());
    assert(texts(out@) =~= Seq::<Seq<char>>::empty());
    while i < labels.len()
        invariant
            i <= labels@.len(),
            texts(out@).to_multiset() == texts(labels@).take(i as int).to_multiset(),
            sorted_texts(texts(out@)),
        decreases labels@.len() - i,
    {
        let x = &labels[i];
        let mut p: usize = 0;
        while p < out.len() && !text_less(x.as_str(), out[p].as_str())
            invariant
                p <= out@.len(),
                forall|k: int| 0 <= k < p ==> !text_lt(x@, #[trigger] texts(out@)[k]),
            decreases out@.len() - p,
        {
            p = p + 1;
        }
        let ghost before = texts(out@);
        out.insert(p, x.clone());
        proof {
            let after = texts(out@);
            assert(after =~= before.insert(p as int, x@));
            vstd::seq_lib::to_multiset_insert(before, p as int, x@);
            vstd::seq_lib::to_multiset_build(texts(labels@).take(i as int), x@);
            assert(texts(labels@)[i as int] == x@);
            assert(texts(labels@).take(i + 1) =~= texts(labels@).take(i as int).push(x@));
            assert(texts(labels@).take(i as int).push(x@).to_multiset() == texts(labels@).take(
                i as int,
            ).to_multiset().insert(x@));
            assert forall|a: int, b: int| 0 <= a < b < after.len() implies !text_lt(
                #[trigger] after[b],
                #[trigger] after[a],
            ) by {
                if b < p {
                    assert(after[a] == before[a] && after[b] == before[b]);
                } else if b == p {
                    assert(after[a] == before[a]);
                } else if a == p {
                    assert(after[b] == before[b - 1]);
                    assert(text_lt(x@, before[p as int]));
                    if text_lt(before[b - 1], x@) {
                        lemma_text_lt_transitive(before[b - 1], x@, before[p as int]);
                        if b - 1 == p {
                            lemma_text_lt_irreflexive(before[p as int]);
                        }
                    }
                } else if a < p {
                    assert(after[a] == before[a] && after[b] == before[b - 1]);
                } else {
                    assert(after[a] == before[a - 1] && after[b] == before[b - 1]);
                }
            }
        }
        i = i + 1;
    }
    assert(texts(labels@).take(i as int) =~= texts(labels@));
    out
}

/// The text that std's `Debug` writes for a list of strings (each quoted
/// and escaped, the list in square brackets).
pub uninterp spec fn debug_list_text(items: Seq<Seq<char>>) -> Seq<char>;

/// Writes a list of strings as std's `Debug` does.
///
/// Trusted: `format!("{:?}", ..)` on a `Vec<String>` (std's `Debug` for
/// `Vec` and `str`). What it writes depends on the strings alone, so it is
/// named; the escaping rules that std follows are not written out here.
#[verifier::external_body]
fn debug_list(items: &Vec<String>) -> (s: String)
    ensures
        s@ == debug_list_text(texts(items@)),
{
    format!("{:?}", items)
}

/// The system's description of an OS error code.
///
/// Trusted: `std::io::Error::from_raw_os_error` and its `Display`. The text
/// comes from the system and its language, so nothing is promised of it.
#[verifier::external_body]
fn os_status_text(status: i32) -> (s: String) {
    std::io::Error::from_raw_os_error(status).to_string()
}

/// The message of a missing label: the device name and the known labels,
/// as written by `debug_list`.
pub open spec fn missing_label_text(device_name: Seq<char>, labels_text: Seq<char>) -> Seq<char> {
    "DisplayConfig did not return a label for active monitor '"@ + device_name
        + "' (known labels: "@ + labels_text + ")"@
}

impl DisplayError {
    /// The text of the error as the user sees it, given the system's
    /// description of the status (for the two failed queries) and the known
    /// labels as written out (for a missing label).
    pub open spec fn spec_message(self, status_text: Seq<char>, labels_text: Seq<char>) -> Seq<
        char,
    > {
        match self {
            DisplayError::MonitorNotFound { index } => "target monitor index "@ + decimal_text(
                index as nat,
            ) + " not found"@,
            DisplayError::NoPrimaryMonitor => "no primary monitor found"@,
            DisplayError::DisplayChangeFailed { code } => "display API returned status code "@
                + signed_decimal_text(code as int),
            DisplayError::MissingMonitorLabel { device_name, known_labels } => missing_label_text(
                device_name@,
                labels_text,
            ),
            DisplayError::BufferSizeQueryFailed { status } =>
                "GetDisplayConfigBufferSizes(QDC_ONLY_ACTIVE_PATHS) failed with status "@
                + decimal_text(status as nat) + " ("@ + status_text + ")"@,
            DisplayError::ConfigQueryFailed { status } =>
                "QueryDisplayConfig(QDC_ONLY_ACTIVE_PATHS) failed with status "@ + decimal_text(
                status as nat,
            ) + " ("@ + status_text + ")"@,
            DisplayError::NoActivePaths =>
                "QueryDisplayConfig(QDC_ONLY_ACTIVE_PATHS) returned zero active display paths"@,
            DisplayError::NoUsableLabels { path_count, source_name_failures, ordinal_overflow } =>
                "DisplayConfig returned "@ + decimal_text(path_count as nat)
                + " active path(s) but no usable source labels (device_info_failures="@
                + decimal_text(source_name_failures as nat) + ", ordinal_overflow="@
                + decimal_text(ordinal_overflow as nat) + ")"@,
        }
    }

    /// The text of the error, given the system's description of the status
    /// and the known labels as written out (see `spec_message`).
    pub fn message_with(&self, status_text: &str, labels_text: &str) -> (m: String)
        ensures
            m@ == self.spec_message(status_text@, labels_text@),
    {
        let mut out: Vec<char> = Vec::new();
        match self {
            DisplayError::MonitorNotFound { index } => {
                let a = "target monitor index ";
                let b = " not found";
                proof {
                    reveal_strlit("target monitor index ");
                    reveal_strlit(" not found");
                }
                push_all(&mut out, chars_of(a).as_slice());
                push_all(&mut out, decimal(*index as u64).as_slice());
                push_all(&mut out, chars_of(b).as_slice());
            },
            DisplayError::NoPrimaryMonitor => {
                let a = "no primary monitor found";
                proof {
                    reveal_strlit("no primary monitor found");
                }
                push_all(&mut out, chars_of(a).as_slice());
            },
            DisplayError::DisplayChangeFailed { code } => {
                let a = "display API returned status code ";
                proof {
                    reveal_strlit("display API returned status code ");
                }
                push_all(&mut out, chars_of(a).as_slice());
                push_all(&mut out, signed_decimal(*code).as_slice());
            },
            DisplayError::MissingMonitorLabel { device_name, known_labels } => {
                let a = "DisplayConfig did not return a label for active monitor '";
                let b = "' (known labels: ";
                let c = ")";
                proof {
                    reveal_strlit("DisplayConfig did not return a label for active monitor '");
                    reveal_strlit("' (known labels: ");
                    reveal_strlit(")");
                }
                push_all(&mut out, chars_of(a).as_slice());
                push_all(&mut out, chars_of(device_name.as_str()).as_slice());
                push_all(&mut out, chars_of(b).as_slice());
                push_all(&mut out, chars_of(labels_text).as_slice());
                push_all(&mut out, chars_of(c).as_slice());
            },
            DisplayError::BufferSizeQueryFailed { status } => {
                let a = "GetDisplayConfigBufferSizes(QDC_ONLY_ACTIVE_PATHS) failed with status ";
                let b = " (";
                let c = ")";
                proof {
                    reveal_strlit(
                        "GetDisplayConfigBufferSizes(QDC_ONLY_ACTIVE_PATHS) failed with status ",
                    );
                    reveal_strlit(" (");
                    reveal_strlit(")");
                }
                push_all(&mut out, chars_of(a).as_slice());
                push_all(&mut out, decimal(*status as u64).as_slice());
                push_all(&mut out, chars_of(b).as_slice());
                push_all(&mut out, chars_of(status_text).as_slice());
                push_all(&mut out, chars_of(c).as_slice());
            },
            DisplayError::ConfigQueryFailed { status } => {
                let a = "QueryDisplayConfig(QDC_ONLY_ACTIVE_PATHS) failed with status ";
                let b = " (";
                let c = ")";
                proof {
                    reveal_strlit("QueryDisplayConfig(QDC_ONLY_ACTIVE_PATHS) failed with status ");
                    reveal_strlit(" (");
                    reveal_strlit(")");
                }
                push_all(&mut out, chars_of(a).as_slice());
                push_all(&mut out, decimal(*status as u64).as_slice());
                push_all(&mut out, chars_of(b).as_slice());
                push_all(&mut out, chars_of(status_text).as_slice());
                push_all(&mut out, chars_of(c).as_slice());
            },
            DisplayError::NoActivePaths => {
                let a = "QueryDisplayConfig(QDC_ONLY_ACTIVE_PATHS) returned zero active display paths";
                proof {
                    reveal_strlit(
                        "QueryDisplayConfig(QDC_ONLY_ACTIVE_PATHS) returned zero active display paths",
                    );
                }
                push_all(&mut out, chars_of(a).as_slice());
            },
            DisplayError::NoUsableLabels { path_count, source_name_failures, ordinal_overflow } => {
                let a = "DisplayConfig returned ";
                let b = " active path(s) but no usable source labels (device_info_failures=";
                let c = ", ordinal_overflow=";
                let d = ")";
                proof {
                    reveal_strlit("DisplayConfig returned ");
                    reveal_strlit(
                        " active path(s) but no usable source labels (device_info_failures=",
                    );
                    reveal_strlit(", ordinal_overflow=");
                    reveal_strlit(")");
                }
                push_all(&mut out, chars_of(a).as_slice());
                push_all(&mut out, decimal(*path_count as u64).as_slice());
                push_all(&mut out, chars_of(b).as_slice());
                push_all(&mut out, decimal(*source_name_failures as u64).as_slice());
                push_all(&mut out, chars_of(c).as_slice());
                push_all(&mut out, decimal(*ordinal_overflow as u64).as_slice());
                push_all(&mut out, chars_of(d).as_slice());
            },
        }
        string_from_chars(out.as_slice())
    }

    /// The text of the error as the user sees it. The known labels of a
    /// missing label are listed sorted, as `Debug` writes them; the two
    /// failed queries add the system's description of the status, which
    /// depends on the system and is left open.
    pub fn message(&self) -> (m: String)
        ensures
            match self {
                DisplayError::BufferSizeQueryFailed { .. } | DisplayError::ConfigQueryFailed {
                    ..
                } => exists|t: Seq<char>| m@ == self.spec_message(t, Seq::<char>::empty()),
                DisplayError::MissingMonitorLabel { known_labels, .. } => exists|r: Seq<
                    Seq<char>,
                >|
                    is_sorted_arrangement(r, texts(known_labels@)) && m@ == self.spec_message(
                        Seq::<char>::empty(),
                        debug_list_text(r),
                    ),
                _ => m@ == self.spec_message(Seq::<char>::empty(), Seq::<char>::empty()),
            },
    {
        match self {
            DisplayError::BufferSizeQueryFailed { status } | DisplayError::ConfigQueryFailed {
                status,
            } => {
                let t = os_status_text(#[verifier::truncate] (*status as i32));
                proof {
                    reveal_strlit("");
                }
                let m = self.message_with(t.as_str(), "");
                assert(m@ == self.spec_message(t@, Seq::<char>::empty()));
                m
            },
            DisplayError::MissingMonitorLabel { known_labels, .. } => {
                let sorted = sorted_labels(known_labels);
                let l = debug_list(&sorted);
                proof {
                    reveal_strlit("");
                }
                self.message_with("", l.as_str())
            },
            _ => {
                proof {
                    reveal_strlit("");
                }
                self.message_with("", "")
            },
        }
    }
}

/// The orientation-only change that an orientation-first attempt makes
/// before setting the whole mode: none when the monitor already has the
/// desired orientation, else the current pixel dimensions, swapped when the
/// change crosses between portrait and landscape.
pub fn orientation_step(
    current_width: u16,
    current_height: u16,
    current_orientation: u32,
    desired_orientation: u32,
) -> (step: Option<(u16, u16)>)
    ensures
        current_orientation == desired_orientation ==> step is None,
        current_orientation != desired_orientation ==> step == Some(
            crate::orientation::spec_mode_dimensions_for_orientation_transition(
                current_width,
                current_height,
                current_orientation,
                desired_orientation,
            ),
        ),
{
    if current_orientation == desired_orientation {
        None
    } else {
        Some(
            crate::orientation::mode_dimensions_for_orientation_transition(
                current_width,
                current_height,
                current_orientation,
                desired_orientation,
            ),
        )
    }
}

/// `DISP_CHANGE_SUCCESSFUL`.
pub const DISP_CHANGE_SUCCESSFUL: i32 = 0;

/// A display settings change succeeded exactly when it returned
/// `DISP_CHANGE_SUCCESSFUL`.
pub fn ensure_display_change_success(status: i32) -> (res: Result<(), DisplayError>)
    ensures
        status == DISP_CHANGE_SUCCESSFUL ==> res is Ok,
        status != DISP_CHANGE_SUCCESSFUL ==> res == Err::<(), DisplayError>(
            DisplayError::DisplayChangeFailed { code: status },
        ),
{
    if status == DISP_CHANGE_SUCCESSFUL {
        Ok(())
    } else {
        Err(DisplayError::DisplayChangeFailed { code: status })
    }
}

/// `DISPLAY_DEVICE_ATTACHED_TO_DESKTOP`.
pub const DISPLAY_DEVICE_ATTACHED_TO_DESKTOP: u32 = 0x1;

/// `DISPLAY_DEVICE_PRIMARY_DEVICE`.
pub const DISPLAY_DEVICE_PRIMARY_DEVICE: u32 = 0x4;

/// Whether a display device is part of the desktop.
pub fn is_attached_to_desktop(state_flags: u32) -> (b: bool)
    ensures
        b == (state_flags & DISPLAY_DEVICE_ATTACHED_TO_DESKTOP != 0),
{
    state_flags & DISPLAY_DEVICE_ATTACHED_TO_DESKTOP != 0
}

/// The refresh rate to record: 60 Hz when the device reports none.
pub open spec fn refresh_rate_of(frequency: u32) -> u16 {
    if frequency == 0 {
        60
    } else {
        frequency as u16
    }
}

/// A monitor as its display device and current display settings describe
/// it, before it gets its label (which starts at 0).
pub fn monitor_from_display_mode(
    device_name: String,
    state_flags: u32,
    position: (i32, i32),
    width: u32,
    height: u32,
    frequency: u32,
    orientation: u32,
) -> (m: MonitorInfo)
    ensures
        m.device_name == device_name,
        m.index == 0,
        m.position == position,
        m.resolution == (width as u16, height as u16),
        m.refresh_rate == refresh_rate_of(frequency),
        m.display_orientation == orientation,
        m.is_primary == (state_flags & DISPLAY_DEVICE_PRIMARY_DEVICE != 0),
{
    let refresh_rate = if frequency == 0 {
        60
    } else {
        #[verifier::truncate]
        (frequency as u16)
    };
    MonitorInfo {
        device_name,
        index: 0,
        position,
        resolution: (#[verifier::truncate] (width as u16), #[verifier::truncate] (height as u16)),
        refresh_rate,
        display_orientation: orientation,
        is_primary: state_flags & DISPLAY_DEVICE_PRIMARY_DEVICE != 0,
    }
}

/// `ERROR_INSUFFICIENT_BUFFER`.
pub const ERROR_INSUFFICIENT_BUFFER: u32 = 122;

/// How many times the display configuration is queried at most.
pub const MAX_QUERY_RETRIES: u8 = 3;

/// What to do after querying the display configuration.
#[derive(Debug, Clone, Copy, PartialEq, Eq)]
pub enum QueryOutcome {
    /// The buffers were too small: ask for their sizes and query again.
    Retry,
    /// The query failed with this status.
    Failed { status: u32 },
    /// The query succeeded but returned no active path.
    NoActivePaths,
    /// The query returned active paths.
    Paths,
}

/// Decides what follows a display configuration query on its `attempt`-th
/// try: a too-small buffer is retried while tries remain; any other failure
/// is final; success needs at least one path.
pub fn display_query_outcome(attempt: u8, status: u32, path_count: u32) -> (o: QueryOutcome)
    ensures
        status == ERROR_INSUFFICIENT_BUFFER && attempt < MAX_QUERY_RETRIES ==> o
            == QueryOutcome::Retry,
        !(status == ERROR_INSUFFICIENT_BUFFER && attempt < MAX_QUERY_RETRIES) && status != 0 ==> o
            == (QueryOutcome::Failed { status }),
        status == 0 && path_count == 0 ==> o == QueryOutcome::NoActivePaths,
        status == 0 && path_count != 0 ==> o == QueryOutcome::Paths,
{
    if status == ERROR_INSUFFICIENT_BUFFER && attempt < MAX_QUERY_RETRIES {
        QueryOutcome::Retry
    } else if status != 0 {
        QueryOutcome::Failed { status }
    } else if path_count == 0 {
        QueryOutcome::NoActivePaths
    } else {
        QueryOutcome::Paths
    }
}

/// A monitor label: the number shown for the source in the display settings.
#[derive(Debug, Clone, PartialEq, Eq)]
pub struct MonitorLabel {
    pub device_name: String,
    pub index: u8,
}

/// Going through the active paths in order: the distinct source names that
/// got a label (the first 255), how many paths had no readable source name,
/// and how many new names came after the labels ran out.
pub open spec fn scan_labels(names: Seq<Option<Seq<char>>>) -> (Seq<Seq<char>>, nat, nat)
    decreases names.len(),
{
    if names.len() == 0 {
        (seq![], 0, 0)
    } else {
        let (labels, failures, overflow) = scan_labels(names.drop_last());
        match names.last() {
            None => (labels, failures + 1, overflow),
            Some(n) => if labels.contains(n) {
                (labels, failures, overflow)
            } else if labels.len() >= 255 {
                (labels, failures, overflow + 1)
            } else {
                (labels.push(n), failures, overflow)
            },
        }
    }
}

proof fn lemma_scan_bounds(names: Seq<Option<Seq<char>>>)
    ensures
        scan_labels(names).0.len() <= 255,
        scan_labels(names).0.len() + scan_labels(names).1 + scan_labels(names).2 <= names.len(),
    decreases names.len(),
{
    if names.len() > 0 {
        lemma_scan_bounds(names.drop_last());
    }
}

pub open spec fn option_string_view(o: Option<String>) -> Option<Seq<char>> {
    match o {
        Some(s) => Some(s@),
        None => None,
    }
}

fn contains_name(labels: &Vec<MonitorLabel>, name: &String) -> (b: bool)
    ensures
        b == labels@.map_values(|l: MonitorLabel| l.device_name@).contains(name@),
{
    let ghost names = labels@.map_values(|l: MonitorLabel| l.device_name@);
    let mut i: usize = 0;
    while i < labels.len()
        invariant
            i <= labels@.len(),
            names == labels@.map_values(|l: MonitorLabel| l.device_name@),
            forall|j: int| 0 <= j < i ==> names[j] != name@,
        decreases labels@.len() - i,
    {
        if labels[i].device_name == *name {
            assert(names[i as int] == name@);
            return true;
        }
        i = i + 1;
    }
    false
}

/// Labels the display sources in the order the display configuration lists
/// their paths: each distinct source name gets the next number from 1, up to
/// 255; unreadable names and names past 255 are skipped. `names` holds the
/// source name of each path, `None` where it could not be read. Fails when no
/// source got a label.
pub fn label_indices(names: &Vec<Option<String>>) -> (res: Result<Vec<MonitorLabel>, DisplayError>)
    requires
        names@.len() <= u32::MAX,
    ensures
        ({
            let (labels, failures, overflow) = scan_labels(
                names@.map_values(|o: Option<String>| option_string_view(o)),
            );
            &&& labels.len() == 0 ==> res == Err::<Vec<MonitorLabel>, DisplayError>(
                DisplayError::NoUsableLabels {
                    path_count: names@.len() as u32,
                    source_name_failures: failures as u32,
                    ordinal_overflow: overflow as u32,
                },
            )
            &&& labels.len() > 0 ==> (res matches Ok(v) && v@.len() == labels.len() && forall|i: int|
                0 <= i < labels.len() ==> (#[trigger] v@[i]).device_name@ == labels[i] && v@[i].index
                    == i + 1)
        }),
{
    let ghost views = names@.map_values(|o: Option<String>| option_string_view(o));
    let mut labels: Vec<MonitorLabel> = Vec::new();
    let mut failures: u32 = 0;
    let mut overflow: u32 = 0;
    let mut i: usize = 0;
    while i < names.len()
        invariant
            i <= names@.len(),
            names@.len() <= u32::MAX,
            views == names@.map_values(|o: Option<String>| option_string_view(o)),
            ({
                let (ls, f, o) = scan_labels(views.take(i as int));
                &&& labels@.map_values(|l: MonitorLabel| l.device_name@) == ls
                &&& forall|j: int| 0 <= j < labels@.len() ==> (#[trigger] labels@[j]).index == j + 1
                &&& failures == f
                &&& overflow == o
            }),
        decreases names@.len() - i,
    {
        proof {
            assert(views.take(i + 1).drop_last() =~= views.take(i as int));
            lemma_scan_bounds(views.take(i + 1));
        }
        let ghost prev = labels@;
        match &names[i] {
            None => {
                failures = failures + 1;
            },
            Some(n) => {
                if !contains_name(&labels, n) {
                    if labels.len() >= 255 {
                        overflow = overflow + 1;
                    } else {
                        let index = (labels.len() + 1) as u8;
                        labels.push(MonitorLabel { device_name: copy_string(n), index });
                        assert(labels@.map_values(|l: MonitorLabel| l.device_name@) =~= prev.map_values(
                            |l: MonitorLabel| l.device_name@,
                        ).push(n@));
                    }
                }
            },
        }
        i = i + 1;
    }
    assert(views.take(i as int) =~= views);
    proof {
        lemma_scan_bounds(views);
    }
    if labels.len() == 0 {
        return Err(
            DisplayError::NoUsableLabels {
                path_count: names.len() as u32,
                source_name_failures: failures,
                ordinal_overflow: overflow,
            },
        );
    }
    proof {
        let ls = scan_labels(views).0;
        assert forall|j: int| 0 <= j < ls.len() implies (#[trigger] labels@[j]).device_name@
            == ls[j] && labels@[j].index == j + 1 by {
            assert(labels@.map_values(|l: MonitorLabel| l.device_name@)[j] == labels@[j].device_name@);
        }
    }
    Ok(labels)
}

/// Index of the first label for the given device name.
pub open spec fn label_for(labels: Seq<MonitorLabel>, name: Seq<char>) -> Option<int> {
    if exists|i: int| 0 <= i < labels.len() && (#[trigger] labels[i]).device_name@ == name {
        Some(
            choose|i: int|
                0 <= i < labels.len() && labels[i].device_name@ == name && forall|j: int|
                    0 <= j < i ==> (#[trigger] labels[j]).device_name@ != name,
        )
    } else {
        None
    }
}

fn find_label(labels: &Vec<MonitorLabel>, name: &String) -> (res: Option<usize>)
    ensures
        match res {
            Some(i) => i < labels@.len() && label_for(labels@, name@) == Some(i as int),
            None => label_for(labels@, name@) is None,
        },
{
    let mut i: usize = 0;
    while i < labels.len()
        invariant
            i <= labels@.len(),
            forall|j: int| 0 <= j < i ==> (#[trigger] labels@[j]).device_name@ != name@,
        decreases labels@.len() - i,
    {
        if labels[i].device_name == *name {
            proof {
                let f = choose|f: int|
                    0 <= f < labels@.len() && labels@[f].device_name@ == name@ && forall|j: int|
                        0 <= j < f ==> (#[trigger] labels@[j]).device_name@ != name@;
                assert(labels@[i as int].device_name@ == name@);
                if f < i {
                    assert(labels@[f].device_name@ == name@);
                } else if i < f {
                    assert(labels@[i as int].device_name@ == name@);
                }
            }
            return Some(i);
        }
        i = i + 1;
    }
    None
}

fn label_names(labels: &Vec<MonitorLabel>) -> (known: Vec<String>)
    ensures
        known@.map_values(|s: String| s@) == labels@.map_values(|l: MonitorLabel| l.device_name@),
{
    let mut known: Vec<String> = Vec::new();
    let mut q: usize = 0;
    while q < labels.len()
        invariant
            q <= labels@.len(),
            known@.map_values(|s: String| s@) == labels@.take(q as int).map_values(
                |l: MonitorLabel| l.device_name@,
            ),
        decreases labels@.len() - q,
    {
        let ghost prev = known@;
        known.push(copy_string(&labels[q].device_name));
        assert(labels@.take(q + 1).map_values(|l: MonitorLabel| l.device_name@) =~= labels@.take(
            q as int,
        ).map_values(|l: MonitorLabel| l.device_name@).push(labels@[q as int].device_name@));
        assert(known@.map_values(|s: String| s@) =~= prev.map_values(|s: String| s@).push(
            known@.last()@,
        ));
        q = q + 1;
    }
    assert(labels@.take(q as int) =~= labels@);
    known
}

/// Every monitor labelled from the label of its device.
pub open spec fn all_labelled(monitors: Seq<MonitorInfo>, labels: Seq<MonitorLabel>) -> bool {
    forall|i: int| 0 <= i < monitors.len() ==> label_for(labels, (#[trigger] monitors[i]).device_name@) is Some
}

/// The error for an unlabelled monitor names the first monitor in order
/// whose device has no label, and lists the known labels.
pub open spec fn reports_missing_label(
    monitors: Seq<MonitorInfo>,
    labels: Seq<MonitorLabel>,
    device_name: String,
    known_labels: Vec<String>,
) -> bool {
    &&& exists|i: int|
        0 <= i < monitors.len() && label_for(labels, monitors[i].device_name@) is None && (forall|j: int|
            0 <= j < i ==> label_for(labels, (#[trigger] monitors[j]).device_name@) is Some)
            && device_name == monitors[i].device_name
    &&& known_labels@.map_values(|s: String| s@) == labels.map_values(
        |l: MonitorLabel| l.device_name@,
    )
}

/// A monitor with the label of its device.
pub open spec fn with_label(m: MonitorInfo, labels: Seq<MonitorLabel>) -> MonitorInfo {
    MonitorInfo { index: labels[label_for(labels, m.device_name@).unwrap()].index, ..m }
}

/// Gives each monitor the label of its device. Fails, naming the first
/// monitor in order whose device has no label and listing the known labels,
/// when some device has none.
pub fn assign_monitor_indices(monitors: Vec<MonitorInfo>, labels: &Vec<MonitorLabel>) -> (res: Result<
    Vec<MonitorInfo>,
    DisplayError,
>)
    ensures
        all_labelled(monitors@, labels@) ==> (res matches Ok(out) && out@.len() == monitors@.len()
            && forall|i: int|
            0 <= i < monitors@.len() ==> (#[trigger] out@[i]) == with_label(monitors@[i], labels@)),
        !all_labelled(monitors@, labels@) ==> (res matches Err(DisplayError::MissingMonitorLabel {
            device_name,
            known_labels,
        }) && reports_missing_label(monitors@, labels@, device_name, known_labels)),
{
    let ghost original = monitors@;
    let total = monitors.len();
    let mut rest = monitors;
    let mut out: Vec<MonitorInfo> = Vec::new();
    let mut i: usize = 0;
    while i < total
        invariant
            total == original.len(),
            original == monitors@,
            i <= total,
            rest@ == original.skip(i as int),
            out@.len() == i,
            forall|j: int| 0 <= j < i ==> label_for(labels@, (#[trigger] original[j]).device_name@) is Some,
            forall|j: int| 0 <= j < i ==> (#[trigger] out@[j]) == with_label(original[j], labels@),
        decreases total - i,
    {
        let m = rest.remove(0);
        assert(m == original[i as int]);
        match find_label(labels, &m.device_name) {
            Some(k) => {
                let index = labels[k].index;
                let ghost before = out@;
                out.push(MonitorInfo { index, ..m });
                assert(out@[i as int] == with_label(original[i as int], labels@));
                assert(forall|j: int| 0 <= j < i ==> out@[j] == before[j]);
                assert(rest@ =~= original.skip(i + 1));
                i = i + 1;
            },
            None => {
                assert(label_for(labels@, original[i as int].device_name@) is None);
                let known = label_names(labels);
                let ghost dn = m.device_name;
                assert(!all_labelled(original, labels@));
                assert(reports_missing_label(original, labels@, dn, known));
                return Err(
                    DisplayError::MissingMonitorLabel { device_name: m.device_name, known_labels: known },
                );
            },
        }
    }
    Ok(out)
}

} // verus!
