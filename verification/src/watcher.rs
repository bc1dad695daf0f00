//! Which watched processes are running, which of them holds display control,
//! and what the display must do when that changes.
//!
//! The functions here decide; the caller carries out the returned
//! `WatchAction` and reports back (`baseline_captured`, `commit_winner`).
use vstd::prelude::*;

use crate::config::{Config, DisplayEntry, WatchEntry};
use crate::monitor::DisplaySnapshot;
use crate::process_event::{normalize_process_name, normalized_name, ProcessEvent};

verus! {

/// A watched process name with the ids of its running instances.
#[derive(Debug)]
pub struct ActiveWatch {
    pub key: String,
    pub pids: Vec<u32>,
}

/// The watcher's state. Active watches are kept in the order in which they
/// became active, the newest last.
#[derive(Debug)]
pub struct WatchState {
    pub active: Vec<ActiveWatch>,
    pub current_winner: Option<String>,
    pub baseline: Option<DisplaySnapshot>,
}

impl Default for WatchState {
    fn default() -> (s: WatchState)
        ensures
            s.active@.len() == 0,
            s.current_winner is None,
            s.baseline is None,
    {
        WatchState { active: Vec::new(), current_winner: None, baseline: None }
    }
}

/// One display change asked for by a watch entry.
#[derive(Debug, Clone, Copy, PartialEq, Eq)]
pub enum DisplayStep {
    /// Make the monitor primary in the given mode.
    SetPrimary {
        monitor: u8,
        resolution: Option<[u16; 2]>,
        refresh_rate: Option<u16>,
        flip_orientation: bool,
    },
    /// Set the monitor's mode without changing the primary monitor.
    SetMode {
        monitor: u8,
        resolution: Option<[u16; 2]>,
        refresh_rate: Option<u16>,
        flip_orientation: bool,
    },
    /// Move the windows of the process onto the monitor.
    MoveWindows { monitor: u8 },
}

/// The display layout of the process that now holds display control.
#[derive(Debug, PartialEq, Eq)]
pub struct LayoutRequest {
    pub process: String,
    pub pids: Vec<u32>,
    pub steps: Vec<DisplayStep>,
}

/// What the caller must do next.
#[derive(Debug, PartialEq, Eq)]
pub enum WatchAction {
    Nothing,
    /// Record the current display state and hand it to `baseline_captured`
    /// (a failure ends the handling of the event with that error).
    CaptureBaseline,
    /// Apply the steps in order, stopping at the first failure; when all
    /// succeed, hand the process to `commit_winner`.
    ApplyLayout(LayoutRequest),
    /// Bring back this display state (a failure is only reported).
    RestoreBaseline(DisplaySnapshot),
}

// ---------------------------------------------------------------------------
// The model.
// ---------------------------------------------------------------------------

/// The active watches as (process key, process ids).
pub open spec fn active_view(active: Seq<ActiveWatch>) -> Seq<(Seq<char>, Seq<u32>)> {
    active.map_values(|w: ActiveWatch| (w.key@, w.pids@))
}

pub open spec fn winner_view(w: Option<String>) -> Option<Seq<char>> {
    match w {
        Some(s) => Some(s@),
        None => None,
    }
}

/// `i` is the first watch entry whose process name normalizes to `key`.
pub open spec fn is_entry_for(watch: Seq<WatchEntry>, key: Seq<char>, i: int) -> bool {
    &&& 0 <= i < watch.len()
    &&& normalized_name(watch[i].process_name@) == key
    &&& forall|j: int|
        0 <= j < i ==> normalized_name((#[trigger] watch[j]).process_name@) != key
}

/// The watch entry for a process key, if any.
pub open spec fn entry_index(watch: Seq<WatchEntry>, key: Seq<char>) -> Option<int> {
    if exists|i: int| is_entry_for(watch, key, i) {
        Some(choose|i: int| is_entry_for(watch, key, i))
    } else {
        None
    }
}

pub open spec fn has_entry(watch: Seq<WatchEntry>, key: Seq<char>) -> bool {
    entry_index(watch, key) is Some
}

pub open spec fn priority_of(watch: Seq<WatchEntry>, key: Seq<char>) -> u8 {
    watch[entry_index(watch, key).unwrap()].priority
}

/// Among the first `n` active watches, `i` holds display control: it has a
/// watch entry, no other has a higher priority, and none after it (newer)
/// has an equal one.
pub open spec fn wins_within(
    watch: Seq<WatchEntry>,
    av: Seq<(Seq<char>, Seq<u32>)>,
    n: int,
    i: int,
) -> bool {
    &&& 0 <= i < n <= av.len()
    &&& has_entry(watch, av[i].0)
    &&& forall|j: int|
        0 <= j < n && has_entry(watch, (#[trigger] av[j]).0) ==> priority_of(watch, av[j].0)
            <= priority_of(watch, av[i].0)
    &&& forall|j: int|
        i < j < n && has_entry(watch, (#[trigger] av[j]).0) ==> priority_of(watch, av[j].0)
            < priority_of(watch, av[i].0)
}

/// The active watch that holds display control: highest priority, the
/// newest among equals; none when no active watch has a watch entry.
pub open spec fn winner(watch: Seq<WatchEntry>, av: Seq<(Seq<char>, Seq<u32>)>) -> Option<int> {
    if exists|i: int| wins_within(watch, av, av.len() as int, i) {
        Some(choose|i: int| wins_within(watch, av, av.len() as int, i))
    } else {
        None
    }
}

pub open spec fn winner_key(watch: Seq<WatchEntry>, av: Seq<(Seq<char>, Seq<u32>)>) -> Option<
    Seq<char>,
> {
    match winner(watch, av) {
        Some(i) => Some(av[i].0),
        None => None,
    }
}

/// Index of the first active watch with the given key.
pub open spec fn key_position(av: Seq<(Seq<char>, Seq<u32>)>, key: Seq<char>) -> Option<int> {
    if exists|i: int| 0 <= i < av.len() && (#[trigger] av[i]).0 == key {
        Some(
            choose|i: int|
                0 <= i < av.len() && av[i].0 == key && forall|j: int|
                    0 <= j < i ==> (#[trigger] av[j]).0 != key,
        )
    } else {
        None
    }
}

/// Index of the first active watch that runs the given process id.
pub open spec fn pid_owner(av: Seq<(Seq<char>, Seq<u32>)>, pid: u32) -> Option<int> {
    if exists|i: int| 0 <= i < av.len() && (#[trigger] av[i]).1.contains(pid) {
        Some(
            choose|i: int|
                0 <= i < av.len() && av[i].1.contains(pid) && forall|j: int|
                    0 <= j < i ==> !(#[trigger] av[j]).1.contains(pid),
        )
    } else {
        None
    }
}

/// The process ids without `pid`.
pub open spec fn without_pid(pids: Seq<u32>, pid: u32) -> Seq<u32>
    decreases pids.len(),
{
    if pids.len() == 0 {
        pids
    } else if pids.last() == pid {
        without_pid(pids.drop_last(), pid)
    } else {
        without_pid(pids.drop_last(), pid).push(pids.last())
    }
}

/// The active watches after a process with the given key and id started.
pub open spec fn started_view(av: Seq<(Seq<char>, Seq<u32>)>, key: Seq<char>, pid: u32) -> Seq<
    (Seq<char>, Seq<u32>),
> {
    match key_position(av, key) {
        Some(p) => if av[p].1.contains(pid) {
            av
        } else {
            av.update(p, (key, av[p].1.push(pid)))
        },
        None => av.push((key, seq![pid])),
    }
}

/// The active watches that still have a watch entry.
pub open spec fn retained(watch: Seq<WatchEntry>, av: Seq<(Seq<char>, Seq<u32>)>) -> Seq<
    (Seq<char>, Seq<u32>),
>
    decreases av.len(),
{
    if av.len() == 0 {
        av
    } else if has_entry(watch, av.last().0) {
        retained(watch, av.drop_last()).push(av.last())
    } else {
        retained(watch, av.drop_last())
    }
}

/// The display steps for one display section: make the monitor primary or
/// only set its mode, then move the windows there when asked.
pub open spec fn display_steps(d: DisplayEntry) -> Seq<DisplayStep> {
    let first = if d.set_primary {
        DisplayStep::SetPrimary {
            monitor: d.monitor,
            resolution: d.resolution,
            refresh_rate: d.refresh_rate,
            flip_orientation: d.flip_orientation,
        }
    } else {
        DisplayStep::SetMode {
            monitor: d.monitor,
            resolution: d.resolution,
            refresh_rate: d.refresh_rate,
            flip_orientation: d.flip_orientation,
        }
    };
    if d.move_to_monitor {
        seq![first, DisplayStep::MoveWindows { monitor: d.monitor }]
    } else {
        seq![first]
    }
}

/// The display steps of a watch entry's display sections, in order.
pub open spec fn layout_steps(display: Seq<DisplayEntry>) -> Seq<DisplayStep>
    decreases display.len(),
{
    if display.len() == 0 {
        seq![]
    } else {
        layout_steps(display.drop_last()) + display_steps(display.last())
    }
}

/// One display section gives: its monitor made primary (or only its mode
/// set), with the section's resolution, refresh rate and flip; then, when
/// asked, the windows moved onto that monitor; nothing else.
pub proof fn law_section_steps(d: DisplayEntry)
    ensures
        display_steps(d).len() == (if d.move_to_monitor {
            2int
        } else {
            1int
        }),
        d.set_primary ==> display_steps(d)[0] == (DisplayStep::SetPrimary {
            monitor: d.monitor,
            resolution: d.resolution,
            refresh_rate: d.refresh_rate,
            flip_orientation: d.flip_orientation,
        }),
        !d.set_primary ==> display_steps(d)[0] == (DisplayStep::SetMode {
            monitor: d.monitor,
            resolution: d.resolution,
            refresh_rate: d.refresh_rate,
            flip_orientation: d.flip_orientation,
        }),
        d.move_to_monitor ==> display_steps(d)[1] == (DisplayStep::MoveWindows {
            monitor: d.monitor,
        }),
{
}

/// A layout runs the steps of every display section of the watch entry,
/// section after section in the entry's order: none is skipped and nothing
/// is added, so it holds one step per section plus one per section that
/// moves windows.
pub proof fn law_layout_covers_every_section(display: Seq<DisplayEntry>)
    ensures
        layout_steps(display) == display.map_values(|d: DisplayEntry| display_steps(d)).flatten(),
        layout_steps(display).len() == display.len() + display.filter(
            |d: DisplayEntry| d.move_to_monitor,
        ).len(),
    decreases display.len(),
{
    let f = |d: DisplayEntry| display_steps(d);
    let moves = |d: DisplayEntry| d.move_to_monitor;
    if display.len() == 0 {
        reveal(Seq::filter);
        assert(display.map_values(f) =~= Seq::<Seq<DisplayStep>>::empty());
        assert(display.filter(moves) =~= Seq::<DisplayEntry>::empty());
    } else {
        let p = display.drop_last();
        let d = display.last();
        law_layout_covers_every_section(p);
        assert(display =~= p.push(d));
        assert(display.map_values(f) =~= p.map_values(f).push(f(d)));
        p.map_values(f).lemma_flatten_push(f(d));
        p.lemma_filter_push(d, moves);
        law_section_steps(d);
    }
}

/// `req` is the layout of active watch `i`: its key, its process ids and the
/// steps of its watch entry.
pub open spec fn is_layout_of(
    req: LayoutRequest,
    watch: Seq<WatchEntry>,
    av: Seq<(Seq<char>, Seq<u32>)>,
    i: int,
) -> bool {
    &&& 0 <= i < av.len()
    &&& req.process@ == av[i].0
    &&& req.pids@ == av[i].1
    &&& req.steps@ == layout_steps(watch[entry_index(watch, av[i].0).unwrap()].display@)
}

/// Deciding who holds display control: nothing to do when the winner is the
/// current one; the winner's layout to apply when there is a new one (the
/// current winner stays until the layout is committed); no winner and no
/// action when nothing wins.
pub open spec fn winner_decided(
    watch: Seq<WatchEntry>,
    av: Seq<(Seq<char>, Seq<u32>)>,
    before: Option<Seq<char>>,
    after: Option<Seq<char>>,
    action: WatchAction,
) -> bool {
    if winner_key(watch, av) == before {
        after == before && action == WatchAction::Nothing
    } else {
        match winner(watch, av) {
            Some(i) => after == before && (action matches WatchAction::ApplyLayout(req)
                && is_layout_of(req, watch, av, i)),
            None => after is None && action == WatchAction::Nothing,
        }
    }
}

// ---------------------------------------------------------------------------
// Lookups.
// ---------------------------------------------------------------------------

proof fn lemma_entry_index(watch: Seq<WatchEntry>, key: Seq<char>, i: int)
    requires
        is_entry_for(watch, key, i),
    ensures
        entry_index(watch, key) == Some(i),
{
    let f = choose|f: int| is_entry_for(watch, key, f);
    assert(is_entry_for(watch, key, f));
    if f < i {
        assert(normalized_name(watch[f].process_name@) == key);
    } else if i < f {
        assert(normalized_name(watch[i].process_name@) == key);
    }
}

/// The watch entry for a process key.
fn watch_entry_index(config: &Config, key: &String) -> (res: Option<usize>)
    ensures
        match res {
            Some(i) => i < config.watch@.len() && entry_index(config.watch@, key@) == Some(
                i as int,
            ),
            None => entry_index(config.watch@, key@) is None,
        },
{
    let mut i: usize = 0;
    while i < config.watch.len()
        invariant
            i <= config.watch@.len(),
            forall|j: int|
                0 <= j < i ==> normalized_name((#[trigger] config.watch@[j]).process_name@)
                    != key@,
        decreases config.watch@.len() - i,
    {
        let name = normalize_process_name(config.watch[i].process_name.as_str());
        if name == *key {
            proof {
                lemma_entry_index(config.watch@, key@, i as int);
            }
            return Some(i);
        }
        i = i + 1;
    }
    proof {
        if exists|f: int| is_entry_for(config.watch@, key@, f) {
            let f = choose|f: int| is_entry_for(config.watch@, key@, f);
            assert(normalized_name(config.watch@[f].process_name@) == key@);
        }
    }
    None
}

/// The watch entry whose process name normalizes to `normalized_name`.
pub fn find_watch_entry<'a>(config: &'a Config, normalized_name: &str) -> (res: Option<
    &'a WatchEntry,
>)
    ensures
        match entry_index(config.watch@, normalized_name@) {
            Some(i) => res == Some(&config.watch@[i]),
            None => res is None,
        },
{
    let key = String::from_str(normalized_name);
    match watch_entry_index(config, &key) {
        Some(i) => Some(&config.watch[i]),
        None => None,
    }
}

proof fn lemma_winner_unique(watch: Seq<WatchEntry>, av: Seq<(Seq<char>, Seq<u32>)>, i: int)
    requires
        wins_within(watch, av, av.len() as int, i),
    ensures
        winner(watch, av) == Some(i),
{
    let w = choose|w: int| wins_within(watch, av, av.len() as int, w);
    assert(wins_within(watch, av, av.len() as int, w));
    if w < i {
        assert(has_entry(watch, av[i].0));
        assert(priority_of(watch, av[i].0) < priority_of(watch, av[w].0));
        assert(priority_of(watch, av[i].0) >= priority_of(watch, av[w].0));
    } else if i < w {
        assert(has_entry(watch, av[w].0));
        assert(priority_of(watch, av[w].0) < priority_of(watch, av[i].0));
        assert(priority_of(watch, av[w].0) >= priority_of(watch, av[i].0));
    }
}

/// The index of the active watch that holds display control.
fn winner_index(config: &Config, active: &Vec<ActiveWatch>) -> (res: Option<usize>)
    ensures
        match res {
            Some(i) => i < active@.len() && winner(config.watch@, active_view(active@)) == Some(
                i as int,
            ),
            None => winner(config.watch@, active_view(active@)) is None,
        },
{
    let ghost watch = config.watch@;
    let ghost av = active_view(active@);
    let mut best: Option<usize> = None;
    let mut best_priority: u8 = 0;
    let mut i: usize = 0;
    while i < active.len()
        invariant
            i <= active@.len(),
            watch == config.watch@,
            av == active_view(active@),
            match best {
                None => forall|j: int| 0 <= j < i ==> !has_entry(watch, (#[trigger] av[j]).0),
                Some(b) => wins_within(watch, av, i as int, b as int) && best_priority
                    == priority_of(watch, av[b as int].0),
            },
        decreases active@.len() - i,
    {
        assert(av[i as int] == (active@[i as int].key@, active@[i as int].pids@));
        match watch_entry_index(config, &active[i].key) {
            Some(e) => {
                let p = config.watch[e].priority;
                let take = match best {
                    None => true,
                    Some(_) => p >= best_priority,
                };
                if take {
                    best = Some(i);
                    best_priority = p;
                }
            },
            None => {},
        }
        i = i + 1;
    }
    match best {
        Some(b) => {
            proof {
                lemma_winner_unique(watch, av, b as int);
            }
            Some(b)
        },
        None => {
            proof {
                if exists|w: int| wins_within(watch, av, av.len() as int, w) {
                    let w = choose|w: int| wins_within(watch, av, av.len() as int, w);
                    assert(has_entry(watch, av[w].0));
                }
            }
            None
        },
    }
}

/// The process that holds display control: the active watch with the
/// highest priority, the newest among equals.
pub fn find_winner_key(config: &Config, state: &WatchState) -> (res: Option<String>)
    ensures
        winner_view(res) == winner_key(config.watch@, active_view(state.active@)),
{
    match winner_index(config, &state.active) {
        Some(i) => Some(state.active[i].key.clone()),
        None => None,
    }
}

fn same_winner(a: &Option<String>, b: &Option<String>) -> (res: bool)
    ensures
        res == (winner_view(*a) == winner_view(*b)),
{
    match (a, b) {
        (Some(x), Some(y)) => *x == *y,
        (None, None) => true,
        _ => false,
    }
}

fn copy_pids(pids: &Vec<u32>) -> (out: Vec<u32>)
    ensures
        out@ == pids@,
{
    let mut out: Vec<u32> = Vec::new();
    let mut i: usize = 0;
    while i < pids.len()
        invariant
            i <= pids@.len(),
            out@ == pids@.take(i as int),
        decreases pids@.len() - i,
    {
        out.push(pids[i]);
        i = i + 1;
        assert(out@ =~= pids@.take(i as int));
    }
    assert(pids@.take(i as int) =~= pids@);
    out
}

fn steps_for(display: &Vec<DisplayEntry>) -> (steps: Vec<DisplayStep>)
    ensures
        steps@ == layout_steps(display@),
{
    let mut steps: Vec<DisplayStep> = Vec::new();
    let mut i: usize = 0;
    while i < display.len()
        invariant
            i <= display@.len(),
            steps@ == layout_steps(display@.take(i as int)),
        decreases display@.len() - i,
    {
        let d = display[i];
        let ghost before = steps@;
        if d.set_primary {
            steps.push(
                DisplayStep::SetPrimary {
                    monitor: d.monitor,
                    resolution: d.resolution,
                    refresh_rate: d.refresh_rate,
                    flip_orientation: d.flip_orientation,
                },
            );
        } else {
            steps.push(
                DisplayStep::SetMode {
                    monitor: d.monitor,
                    resolution: d.resolution,
                    refresh_rate: d.refresh_rate,
                    flip_orientation: d.flip_orientation,
                },
            );
        }
        if d.move_to_monitor {
            steps.push(DisplayStep::MoveWindows { monitor: d.monitor });
        }
        assert(display@.take(i + 1).drop_last() =~= display@.take(i as int));
        assert(steps@ =~= before + display_steps(d));
        i = i + 1;
    }
    assert(display@.take(i as int) =~= display@);
    steps
}

/// The layout of active watch `i`, whose watch entry is `e`.
fn layout_request(config: &Config, active: &Vec<ActiveWatch>, i: usize, e: usize) -> (req:
    LayoutRequest)
    requires
        i < active@.len(),
        entry_index(config.watch@, active@[i as int].key@) == Some(e as int),
        e < config.watch@.len(),
    ensures
        is_layout_of(req, config.watch@, active_view(active@), i as int),
{
    LayoutRequest {
        process: active[i].key.clone(),
        pids: copy_pids(&active[i].pids),
        steps: steps_for(&config.watch[e].display),
    }
}

/// Hands display control to the winner when it changed (the
/// `apply_winner_if_changed` step of every event).
fn apply_winner_if_changed(config: &Config, state: &mut WatchState) -> (action: WatchAction)
    ensures
        final(state).active == old(state).active,
        final(state).baseline == old(state).baseline,
        winner_decided(
            config.watch@,
            active_view(old(state).active@),
            winner_view(old(state).current_winner),
            winner_view(final(state).current_winner),
            action,
        ),
{
    let next = winner_index(config, &state.active);
    let next_key = match next {
        Some(i) => Some(state.active[i].key.clone()),
        None => None,
    };
    if same_winner(&next_key, &state.current_winner) {
        return WatchAction::Nothing;
    }
    match next {
        Some(i) => {
            let e = watch_entry_index(config, &state.active[i].key);
            match e {
                Some(e) => WatchAction::ApplyLayout(layout_request(config, &state.active, i, e)),
                None => {
                    assert(false);
                    WatchAction::Nothing
                },
            }
        },
        None => {
            state.current_winner = None;
            WatchAction::Nothing
        },
    }
}

/// Records that the layout of `process` was applied: it now holds display
/// control.
pub fn commit_winner(state: &mut WatchState, process: String)
    ensures
        final(state).active == old(state).active,
        final(state).baseline == old(state).baseline,
        final(state).current_winner == Some(process),
{
    state.current_winner = Some(process);
}

/// Index of the first active watch with the given key.
fn key_index(active: &Vec<ActiveWatch>, key: &String) -> (res: Option<usize>)
    ensures
        match res {
            Some(i) => i < active@.len() && key_position(active_view(active@), key@) == Some(
                i as int,
            ) && active@[i as int].key@ == key@,
            None => key_position(active_view(active@), key@) is None,
        },
{
    let ghost av = active_view(active@);
    let mut i: usize = 0;
    while i < active.len()
        invariant
            i <= active@.len(),
            av == active_view(active@),
            forall|j: int| 0 <= j < i ==> (#[trigger] av[j]).0 != key@,
        decreases active@.len() - i,
    {
        assert(av[i as int].0 == active@[i as int].key@);
        if active[i].key == *key {
            proof {
                let f = choose|f: int|
                    0 <= f < av.len() && av[f].0 == key@ && forall|j: int|
                        0 <= j < f ==> (#[trigger] av[j]).0 != key@;
                assert(av[i as int].0 == key@);
                if f < i {
                    assert(av[f].0 == key@);
                } else if i < f {
                    assert(av[i as int].0 == key@);
                }
            }
            return Some(i);
        }
        i = i + 1;
    }
    None
}

fn contains_pid(pids: &Vec<u32>, pid: u32) -> (b: bool)
    ensures
        b == pids@.contains(pid),
{
    let mut i: usize = 0;
    while i < pids.len()
        invariant
            i <= pids@.len(),
            forall|j: int| 0 <= j < i ==> pids@[j] != pid,
        decreases pids@.len() - i,
    {
        if pids[i] == pid {
            assert(pids@[i as int] == pid);
            return true;
        }
        i = i + 1;
    }
    false
}

/// What handling the start of process `name` with id `pid` does: a process
/// without a watch entry changes nothing; a known one gains the instance;
/// a new activation asks for the baseline when it is the first one and none
/// is held, and otherwise decides who holds display control.
pub open spec fn started_outcome(
    watch: Seq<WatchEntry>,
    name: Seq<char>,
    pid: u32,
    before: WatchState,
    after: WatchState,
    action: WatchAction,
) -> bool {
    let key = normalized_name(name);
    let av = active_view(before.active@);
    let av2 = active_view(after.active@);
    if !has_entry(watch, key) {
        &&& av2 == av
        &&& after.current_winner == before.current_winner
        &&& after.baseline == before.baseline
        &&& action == WatchAction::Nothing
    } else {
        &&& av2 == started_view(av, key, pid)
        &&& after.baseline == before.baseline
        &&& key_position(av, key) is Some ==> after.current_winner == before.current_winner
            && action == WatchAction::Nothing
        &&& key_position(av, key) is None && av.len() == 0 && before.baseline is None
            ==> after.current_winner == before.current_winner && action
            == WatchAction::CaptureBaseline
        &&& key_position(av, key) is None && !(av.len() == 0 && before.baseline is None)
            ==> winner_decided(
            watch,
            av2,
            winner_view(before.current_winner),
            winner_view(after.current_winner),
            action,
        )
    }
}

/// A process started: a watched one becomes active (or gains an instance).
/// The first activation with no baseline asks for the display state to be
/// captured first; any other new activation may hand display control over.
pub fn handle_started(name: &str, pid: u32, config: &Config, state: &mut WatchState) -> (action:
    WatchAction)
    ensures
        started_outcome(config.watch@, name@, pid, *old(state), *final(state), action),
{
    let key = normalize_process_name(name);
    if watch_entry_index(config, &key).is_none() {
        return WatchAction::Nothing;
    }
    let ghost av = active_view(state.active@);
    let was_empty = state.active.len() == 0;
    match key_index(&state.active, &key) {
        Some(p) => {
            add_pid(&mut state.active, p, pid);
            WatchAction::Nothing
        },
        None => {
            activate(&mut state.active, key, pid);
            if was_empty && state.baseline.is_none() {
                return WatchAction::CaptureBaseline;
            }
            apply_winner_if_changed(config, state)
        },
    }
}

fn add_pid(active: &mut Vec<ActiveWatch>, p: usize, pid: u32)
    requires
        p < old(active)@.len(),
    ensures
        ({
            let av = active_view(old(active)@);
            active_view(final(active)@) == if av[p as int].1.contains(pid) {
                av
            } else {
                av.update(p as int, (av[p as int].0, av[p as int].1.push(pid)))
            }
        }),
{
    let ghost av = active_view(active@);
    if !contains_pid(&active[p].pids, pid) {
        let mut w = active.remove(p);
        w.pids.push(pid);
        active.insert(p, w);
        assert(active_view(active@) =~= av.update(p as int, (av[p as int].0, av[p as int].1.push(pid))));
    }
}

fn activate(active: &mut Vec<ActiveWatch>, key: String, pid: u32)
    ensures
        active_view(final(active)@) == active_view(old(active)@).push((key@, seq![pid])),
{
    let ghost av = active_view(active@);
    let ghost k = key@;
    let mut pids: Vec<u32> = Vec::new();
    pids.push(pid);
    assert(pids@ =~= seq![pid]);
    active.push(ActiveWatch { key, pids });
    assert(active_view(active@) =~= av.push((k, seq![pid])));
}

/// The display state was captured after the first activation: keep it as
/// the baseline and hand display control to the winner.
pub fn baseline_captured(config: &Config, state: &mut WatchState, snapshot: DisplaySnapshot) -> (action:
    WatchAction)
    ensures
        final(state).active == old(state).active,
        final(state).baseline == Some(snapshot),
        winner_decided(
            config.watch@,
            active_view(old(state).active@),
            winner_view(old(state).current_winner),
            winner_view(final(state).current_winner),
            action,
        ),
{
    state.baseline = Some(snapshot);
    apply_winner_if_changed(config, state)
}

/// Whether the watch entry for `key` asks for the display state back when
/// its last instance exits.
pub open spec fn restores_on_exit(watch: Seq<WatchEntry>, key: Seq<char>) -> bool {
    has_entry(watch, key) && watch[entry_index(watch, key).unwrap()].restore_on_exit
}

/// What handling the exit of process id `pid` does: an unknown id changes
/// nothing; otherwise the instance goes, and when it was the last of its
/// process the process goes too. When no watched process is left, display
/// control and the baseline are dropped, and the baseline is restored if the
/// process's entry asks for it; otherwise display control may move.
pub open spec fn exited_outcome(
    watch: Seq<WatchEntry>,
    pid: u32,
    before: WatchState,
    after: WatchState,
    action: WatchAction,
) -> bool {
    let av = active_view(before.active@);
    let av2 = active_view(after.active@);
    match pid_owner(av, pid) {
        None => {
            &&& av2 == av
            &&& after.current_winner == before.current_winner
            &&& after.baseline == before.baseline
            &&& action == WatchAction::Nothing
        },
        Some(p) => {
            let rest = without_pid(av[p].1, pid);
            if rest.len() > 0 {
                &&& av2 == av.update(p, (av[p].0, rest))
                &&& after.current_winner == before.current_winner
                &&& after.baseline == before.baseline
                &&& action == WatchAction::Nothing
            } else {
                &&& av2 == av.remove(p)
                &&& av2.len() == 0 ==> {
                    &&& after.current_winner is None
                    &&& after.baseline is None
                    &&& if restores_on_exit(watch, av[p].0) && before.baseline is Some {
                        action == WatchAction::RestoreBaseline(before.baseline.unwrap())
                    } else {
                        action == WatchAction::Nothing
                    }
                }
                &&& av2.len() > 0 ==> {
                    &&& after.baseline == before.baseline
                    &&& winner_decided(
                        watch,
                        av2,
                        winner_view(before.current_winner),
                        winner_view(after.current_winner),
                        action,
                    )
                }
            }
        },
    }
}

/// Index of the first active watch that runs `pid`.
fn pid_index(active: &Vec<ActiveWatch>, pid: u32) -> (res: Option<usize>)
    ensures
        match res {
            Some(i) => i < active@.len() && pid_owner(active_view(active@), pid) == Some(i as int),
            None => pid_owner(active_view(active@), pid) is None,
        },
{
    let ghost av = active_view(active@);
    let mut i: usize = 0;
    while i < active.len()
        invariant
            i <= active@.len(),
            av == active_view(active@),
            forall|j: int| 0 <= j < i ==> !(#[trigger] av[j]).1.contains(pid),
        decreases active@.len() - i,
    {
        assert(av[i as int].1 == active@[i as int].pids@);
        if contains_pid(&active[i].pids, pid) {
            proof {
                let f = choose|f: int|
                    0 <= f < av.len() && av[f].1.contains(pid) && forall|j: int|
                        0 <= j < f ==> !(#[trigger] av[j]).1.contains(pid);
                assert(av[i as int].1.contains(pid));
                if f < i {
                    assert(av[f].1.contains(pid));
                } else if i < f {
                    assert(av[i as int].1.contains(pid));
                }
            }
            return Some(i);
        }
        i = i + 1;
    }
    None
}

fn remove_pid(pids: &Vec<u32>, pid: u32) -> (out: Vec<u32>)
    ensures
        out@ == without_pid(pids@, pid),
{
    let mut out: Vec<u32> = Vec::new();
    let mut i: usize = 0;
    while i < pids.len()
        invariant
            i <= pids@.len(),
            out@ == without_pid(pids@.take(i as int), pid),
        decreases pids@.len() - i,
    {
        assert(pids@.take(i + 1).drop_last() =~= pids@.take(i as int));
        if pids[i] != pid {
            out.push(pids[i]);
        }
        i = i + 1;
    }
    assert(pids@.take(i as int) =~= pids@);
    out
}

fn take_baseline(state: &mut WatchState) -> (b: Option<DisplaySnapshot>)
    ensures
        b == old(state).baseline,
        final(state).baseline is None,
        final(state).active == old(state).active,
        final(state).current_winner == old(state).current_winner,
{
    let mut b: Option<DisplaySnapshot> = None;
    std::mem::swap(&mut b, &mut state.baseline);
    b
}

/// A process exited (see `exited_outcome`).
pub fn handle_exited(pid: u32, config: &Config, state: &mut WatchState) -> (action: WatchAction)
    ensures
        exited_outcome(config.watch@, pid, *old(state), *final(state), action),
{
    let ghost av = active_view(state.active@);
    let p = match pid_index(&state.active, pid) {
        Some(p) => p,
        None => return WatchAction::Nothing,
    };
    let rest = remove_pid(&state.active[p].pids, pid);
    if rest.len() > 0 {
        let mut w = state.active.remove(p);
        w.pids = rest;
        state.active.insert(p, w);
        assert(active_view(state.active@) =~= av.update(p as int, (av[p as int].0, without_pid(av[p as int].1, pid))));
        return WatchAction::Nothing;
    }
    let w = state.active.remove(p);
    assert(active_view(state.active@) =~= av.remove(p as int));
    let should_restore = match watch_entry_index(config, &w.key) {
        Some(e) => config.watch[e].restore_on_exit,
        None => false,
    };
    if state.active.len() == 0 {
        let baseline = take_baseline(state);
        state.current_winner = None;
        if should_restore {
            match baseline {
                Some(b) => WatchAction::RestoreBaseline(b),
                None => WatchAction::Nothing,
            }
        } else {
            WatchAction::Nothing
        }
    } else {
        apply_winner_if_changed(config, state)
    }
}

/// What reloading the configuration does: active watches without a watch
/// entry in the new configuration go; the winner among the rest gets its
/// layout applied; when none is left, display control and the baseline are
/// dropped, and the baseline is restored if some process held control.
pub open spec fn reload_outcome(
    watch: Seq<WatchEntry>,
    before: WatchState,
    after: WatchState,
    action: WatchAction,
) -> bool {
    let av2 = active_view(after.active@);
    &&& av2 == retained(watch, active_view(before.active@))
    &&& match winner(watch, av2) {
        Some(i) => {
            &&& after.current_winner == before.current_winner
            &&& after.baseline == before.baseline
            &&& action matches WatchAction::ApplyLayout(req) && is_layout_of(req, watch, av2, i)
        },
        None => {
            &&& after.current_winner is None
            &&& after.baseline is None
            &&& if before.current_winner is Some && before.baseline is Some {
                action == WatchAction::RestoreBaseline(before.baseline.unwrap())
            } else {
                action == WatchAction::Nothing
            }
        },
    }
}

/// The configuration was reloaded (see `reload_outcome`).
pub fn reload_config(config: &Config, state: &mut WatchState) -> (action: WatchAction)
    ensures
        reload_outcome(config.watch@, *old(state), *final(state), action),
{
    let ghost watch = config.watch@;
    let ghost av = active_view(state.active@);
    let ghost cur0 = state.current_winner;
    let ghost base0 = state.baseline;
    let mut remaining: Vec<ActiveWatch> = Vec::new();
    std::mem::swap(&mut remaining, &mut state.active);
    let ghost original = remaining@;
    let total = remaining.len();
    let mut i: usize = 0;
    while i < total
        invariant
            total == original.len(),
            i <= total,
            av == active_view(original),
            watch == config.watch@,
            remaining@ == original.skip(i as int),
            active_view(state.active@) == retained(watch, av.take(i as int)),
            state.current_winner == cur0,
            state.baseline == base0,
        decreases total - i,
    {
        let w = remaining.remove(0);
        assert(w == original[i as int]);
        assert(av.take(i + 1).drop_last() =~= av.take(i as int));
        assert(av.take(i + 1).last() == (w.key@, w.pids@));
        let ghost before = active_view(state.active@);
        if watch_entry_index(config, &w.key).is_some() {
            state.active.push(w);
            assert(active_view(state.active@) =~= before.push((w.key@, w.pids@)));
        }
        assert(remaining@ =~= original.skip(i + 1));
        i = i + 1;
    }
    assert(av.take(i as int) =~= av);
    match winner_index(config, &state.active) {
        Some(i) => {
            let e = watch_entry_index(config, &state.active[i].key);
            match e {
                Some(e) => WatchAction::ApplyLayout(layout_request(config, &state.active, i, e)),
                None => {
                    assert(false);
                    WatchAction::Nothing
                },
            }
        },
        None => {
            let had_winner = state.current_winner.is_some();
            let baseline = take_baseline(state);
            state.current_winner = None;
            if had_winner {
                match baseline {
                    Some(b) => WatchAction::RestoreBaseline(b),
                    None => WatchAction::Nothing,
                }
            } else {
                WatchAction::Nothing
            }
        },
    }
}

/// Handles a process start or exit.
pub fn handle_process_event(event: ProcessEvent, config: &Config, state: &mut WatchState) -> (action:
    WatchAction)
    ensures
        match event {
            ProcessEvent::Started { name, pid } => started_outcome(
                config.watch@,
                name@,
                pid,
                *old(state),
                *final(state),
                action,
            ),
            ProcessEvent::Exited { pid } => exited_outcome(
                config.watch@,
                pid,
                *old(state),
                *final(state),
                action,
            ),
        },
{
    match event {
        ProcessEvent::Started { name, pid } => handle_started(name.as_str(), pid, config, state),
        ProcessEvent::Exited { pid } => handle_exited(pid, config, state),
    }
}

// ---------------------------------------------------------------------------
// Laws.
// ---------------------------------------------------------------------------

/// No process id is listed twice.
pub open spec fn no_duplicate_pids(pids: Seq<u32>) -> bool {
    forall|i: int, j: int| 0 <= i < j < pids.len() ==> pids[i] != pids[j]
}

/// Each process key is active at most once, with at least one running
/// instance and no process id listed twice.
pub open spec fn watches_well_formed(av: Seq<(Seq<char>, Seq<u32>)>) -> bool {
    &&& forall|i: int, j: int| 0 <= i < j < av.len() ==> av[i].0 != av[j].0
    &&& forall|i: int| 0 <= i < av.len() ==> (#[trigger] av[i]).1.len() > 0 && no_duplicate_pids(
        av[i].1,
    )
}

/// Every active process key has a watch entry.
pub open spec fn all_watched(watch: Seq<WatchEntry>, av: Seq<(Seq<char>, Seq<u32>)>) -> bool {
    forall|i: int| 0 <= i < av.len() ==> has_entry(watch, (#[trigger] av[i]).0)
}

/// What holds of the state whatever the configuration: well-formed active
/// watches, and no display control or baseline while nothing is active.
pub open spec fn state_well_formed(s: WatchState) -> bool {
    let av = active_view(s.active@);
    &&& watches_well_formed(av)
    &&& av.len() == 0 ==> s.current_winner is None && s.baseline is None
}

/// The state that every event keeps under one configuration: a well-formed
/// state whose active watches all have a watch entry.
pub open spec fn state_invariant(watch: Seq<WatchEntry>, s: WatchState) -> bool {
    &&& state_well_formed(s)
    &&& all_watched(watch, active_view(s.active@))
}

proof fn lemma_key_position_none(av: Seq<(Seq<char>, Seq<u32>)>, key: Seq<char>)
    requires
        key_position(av, key) is None,
    ensures
        forall|i: int| 0 <= i < av.len() ==> (#[trigger] av[i]).0 != key,
{
}

proof fn lemma_first_key(av: Seq<(Seq<char>, Seq<u32>)>, key: Seq<char>)
    requires
        exists|i: int| 0 <= i < av.len() && (#[trigger] av[i]).0 == key,
    ensures
        exists|i: int|
            0 <= i < av.len() && av[i].0 == key && forall|j: int|
                0 <= j < i ==> (#[trigger] av[j]).0 != key,
    decreases av.len(),
{
    let p = av.drop_last();
    if exists|i: int| 0 <= i < p.len() && (#[trigger] p[i]).0 == key {
        lemma_first_key(p, key);
        let f = choose|f: int|
            0 <= f < p.len() && p[f].0 == key && forall|j: int| 0 <= j < f ==> (#[trigger] p[j]).0 != key;
        assert(av[f] == p[f]);
        assert forall|j: int| 0 <= j < f implies (#[trigger] av[j]).0 != key by {
            assert(av[j] == p[j]);
        }
    } else {
        let n = av.len() - 1;
        let i = choose|i: int| 0 <= i < av.len() && (#[trigger] av[i]).0 == key;
        if i < n {
            assert(p[i] == av[i]);
        }
        assert forall|j: int| 0 <= j < n implies (#[trigger] av[j]).0 != key by {
            assert(av[j] == p[j]);
        }
    }
}

proof fn lemma_first_owner(av: Seq<(Seq<char>, Seq<u32>)>, pid: u32)
    requires
        exists|i: int| 0 <= i < av.len() && (#[trigger] av[i]).1.contains(pid),
    ensures
        exists|i: int|
            0 <= i < av.len() && av[i].1.contains(pid) && forall|j: int|
                0 <= j < i ==> !(#[trigger] av[j]).1.contains(pid),
    decreases av.len(),
{
    let p = av.drop_last();
    if exists|i: int| 0 <= i < p.len() && (#[trigger] p[i]).1.contains(pid) {
        lemma_first_owner(p, pid);
        let f = choose|f: int|
            0 <= f < p.len() && p[f].1.contains(pid) && forall|j: int|
                0 <= j < f ==> !(#[trigger] p[j]).1.contains(pid);
        assert(av[f] == p[f]);
        assert forall|j: int| 0 <= j < f implies !(#[trigger] av[j]).1.contains(pid) by {
            assert(av[j] == p[j]);
        }
    } else {
        let n = av.len() - 1;
        let i = choose|i: int| 0 <= i < av.len() && (#[trigger] av[i]).1.contains(pid);
        if i < n {
            assert(p[i] == av[i]);
        }
        assert forall|j: int| 0 <= j < n implies !(#[trigger] av[j]).1.contains(pid) by {
            assert(av[j] == p[j]);
        }
    }
}

proof fn lemma_key_position_some(av: Seq<(Seq<char>, Seq<u32>)>, key: Seq<char>)
    requires
        key_position(av, key) is Some,
    ensures
        0 <= key_position(av, key).unwrap() < av.len(),
        av[key_position(av, key).unwrap()].0 == key,
{
    lemma_first_key(av, key);
}

proof fn lemma_pid_owner_some(av: Seq<(Seq<char>, Seq<u32>)>, pid: u32)
    requires
        pid_owner(av, pid) is Some,
    ensures
        0 <= pid_owner(av, pid).unwrap() < av.len(),
{
    lemma_first_owner(av, pid);
}

proof fn lemma_update_keeps_well_formed(
    watch: Seq<WatchEntry>,
    av: Seq<(Seq<char>, Seq<u32>)>,
    p: int,
    pids: Seq<u32>,
)
    requires
        watches_well_formed(av),
        0 <= p < av.len(),
        pids.len() > 0,
        no_duplicate_pids(pids),
    ensures
        watches_well_formed(av.update(p, (av[p].0, pids))),
        all_watched(watch, av) ==> all_watched(watch, av.update(p, (av[p].0, pids))),
{
    let av2 = av.update(p, (av[p].0, pids));
    assert forall|i: int| 0 <= i < av2.len() implies (#[trigger] av2[i]).1.len() > 0
        && no_duplicate_pids(av2[i].1) by {
        if i != p {
            assert(av2[i] == av[i]);
        }
    }
    if all_watched(watch, av) {
        assert forall|i: int| 0 <= i < av2.len() implies has_entry(watch, (#[trigger] av2[i]).0) by {
            if i != p {
                assert(av2[i] == av[i]);
            }
        }
    }
    assert forall|i: int, j: int| 0 <= i < j < av2.len() implies av2[i].0 != av2[j].0 by {
        assert(av2[i].0 == av[i].0 && av2[j].0 == av[j].0);
    }
}

proof fn lemma_remove_keeps_well_formed(watch: Seq<WatchEntry>, av: Seq<(Seq<char>, Seq<u32>)>, p: int)
    requires
        watches_well_formed(av),
        0 <= p < av.len(),
    ensures
        watches_well_formed(av.remove(p)),
        all_watched(watch, av) ==> all_watched(watch, av.remove(p)),
{
    let av2 = av.remove(p);
    assert forall|i: int| 0 <= i < av2.len() implies #[trigger] av2[i] == av[if i < p {
        i
    } else {
        i + 1
    }] by {}
    assert forall|i: int, j: int| 0 <= i < j < av2.len() implies av2[i].0 != av2[j].0 by {
        let a = if i < p {
            i
        } else {
            i + 1
        };
        let b = if j < p {
            j
        } else {
            j + 1
        };
        assert(av2[i] == av[a] && av2[j] == av[b]);
    }
    assert forall|i: int| 0 <= i < av2.len() implies (#[trigger] av2[i]).1.len() > 0
        && no_duplicate_pids(av2[i].1) by {
        let a = if i < p {
            i
        } else {
            i + 1
        };
        assert(av2[i] == av[a]);
    }
    if all_watched(watch, av) {
        assert forall|i: int| 0 <= i < av2.len() implies has_entry(watch, (#[trigger] av2[i]).0) by {
            let a = if i < p {
                i
            } else {
                i + 1
            };
            assert(av2[i] == av[a]);
        }
    }
}

proof fn lemma_without_pid_from(pids: Seq<u32>, pid: u32)
    ensures
        forall|k: int|
            0 <= k < without_pid(pids, pid).len() ==> pids.contains(
                #[trigger] without_pid(pids, pid)[k],
            ),
        no_duplicate_pids(pids) ==> no_duplicate_pids(without_pid(pids, pid)),
    decreases pids.len(),
{
    if pids.len() > 0 {
        let p = pids.drop_last();
        lemma_without_pid_from(p, pid);
        let w = without_pid(p, pid);
        assert forall|k: int| 0 <= k < w.len() implies pids.contains(#[trigger] w[k]) by {
            let m = choose|m: int| 0 <= m < p.len() && p[m] == w[k];
            assert(pids[m] == w[k]);
        }
        if no_duplicate_pids(pids) {
            assert(no_duplicate_pids(p)) by {
                assert forall|i: int, j: int| 0 <= i < j < p.len() implies p[i] != p[j] by {
                    assert(p[i] == pids[i] && p[j] == pids[j]);
                }
            }
            if pids.last() != pid {
                let n = pids.len() - 1;
                assert forall|k: int| 0 <= k < w.len() implies #[trigger] w[k] != pids.last() by {
                    let m = choose|m: int| 0 <= m < p.len() && p[m] == w[k];
                    assert(pids[m] == p[m]);
                    assert(pids[n] == pids.last());
                }
                let w2 = w.push(pids.last());
                assert forall|i: int, j: int| 0 <= i < j < w2.len() implies w2[i] != w2[j] by {
                    if j == w.len() {
                        assert(w2[i] == w[i]);
                    }
                }
            }
        }
        if pids.last() != pid {
            let w2 = w.push(pids.last());
            assert forall|k: int| 0 <= k < w2.len() implies pids.contains(#[trigger] w2[k]) by {
                if k < w.len() {
                    assert(w2[k] == w[k]);
                } else {
                    assert(pids[pids.len() - 1] == w2[k]);
                }
            }
        }
    }
}

proof fn lemma_retained_from(watch: Seq<WatchEntry>, av: Seq<(Seq<char>, Seq<u32>)>)
    ensures
        forall|k: int|
            0 <= k < retained(watch, av).len() ==> exists|j: int|
                0 <= j < av.len() && av[j] == #[trigger] retained(watch, av)[k],
        all_watched(watch, retained(watch, av)),
        watches_well_formed(av) ==> watches_well_formed(retained(watch, av)),
    decreases av.len(),
{
    if av.len() > 0 {
        let p = av.drop_last();
        lemma_retained_from(watch, p);
        let r = retained(watch, p);
        assert forall|k: int| 0 <= k < r.len() implies exists|j: int|
            0 <= j < av.len() && av[j] == #[trigger] r[k] by {
            let j = choose|j: int| 0 <= j < p.len() && p[j] == r[k];
            assert(av[j] == p[j]);
        }
        if watches_well_formed(av) {
            assert(watches_well_formed(p)) by {
                assert forall|i: int, j: int| 0 <= i < j < p.len() implies p[i].0 != p[j].0 by {
                    assert(p[i] == av[i] && p[j] == av[j]);
                }
                assert forall|i: int| 0 <= i < p.len() implies (#[trigger] p[i]).1.len() > 0
                    && no_duplicate_pids(p[i].1) by {
                    assert(p[i] == av[i]);
                }
            }
        }
        if has_entry(watch, av.last().0) {
            let r2 = r.push(av.last());
            let n = av.len() - 1;
            assert(av[n] == av.last());
            assert forall|k: int| 0 <= k < r2.len() implies exists|j: int|
                0 <= j < av.len() && av[j] == #[trigger] r2[k] by {
                if k < r.len() {
                    assert(r2[k] == r[k]);
                    let j = choose|j: int| 0 <= j < av.len() && av[j] == r[k];
                } else {
                    assert(av[n] == r2[k]);
                }
            }
            assert forall|k: int| 0 <= k < r2.len() implies has_entry(watch, (#[trigger] r2[k]).0) by {
                if k < r.len() {
                    assert(r2[k] == r[k]);
                }
            }
            if watches_well_formed(av) {
                assert forall|i: int, j: int| 0 <= i < j < r2.len() implies r2[i].0 != r2[j].0 by {
                    if j == r.len() {
                        let m = choose|m: int| 0 <= m < p.len() && p[m] == r[i];
                        assert(av[m] == p[m]);
                        assert(r2[i] == r[i]);
                    } else {
                        assert(r2[i] == r[i] && r2[j] == r[j]);
                    }
                }
                assert forall|i: int| 0 <= i < r2.len() implies (#[trigger] r2[i]).1.len() > 0
                    && no_duplicate_pids(r2[i].1) by {
                    if i < r.len() {
                        assert(r2[i] == r[i]);
                    }
                }
            }
        }
    }
}

/// The active watches after a start stay well-formed and are not empty; with
/// a watch entry for the started key they stay all watched.
proof fn lemma_started_view_keeps(
    watch: Seq<WatchEntry>,
    av: Seq<(Seq<char>, Seq<u32>)>,
    key: Seq<char>,
    pid: u32,
)
    requires
        watches_well_formed(av),
    ensures
        watches_well_formed(started_view(av, key, pid)),
        started_view(av, key, pid).len() > 0,
        all_watched(watch, av) && has_entry(watch, key) ==> all_watched(
            watch,
            started_view(av, key, pid),
        ),
{
    let av2 = started_view(av, key, pid);
    match key_position(av, key) {
        Some(p) => {
            lemma_key_position_some(av, key);
            if !av[p].1.contains(pid) {
                let ps = av[p].1.push(pid);
                assert forall|i: int, j: int| 0 <= i < j < ps.len() implies ps[i] != ps[j] by {
                    if j == av[p].1.len() {
                        assert(ps[i] == av[p].1[i]);
                    }
                }
                assert forall|i: int| 0 <= i < av2.len() implies (#[trigger] av2[i]).1.len() > 0
                    && no_duplicate_pids(av2[i].1) by {
                    if i != p {
                        assert(av2[i] == av[i]);
                    }
                }
                if all_watched(watch, av) && has_entry(watch, key) {
                    assert forall|i: int| 0 <= i < av2.len() implies has_entry(
                        watch,
                        (#[trigger] av2[i]).0,
                    ) by {
                        if i != p {
                            assert(av2[i] == av[i]);
                        }
                    }
                }
            }
        },
        None => {
            lemma_key_position_none(av, key);
            let n = av.len() as int;
            if all_watched(watch, av) && has_entry(watch, key) {
                assert forall|i: int| 0 <= i < av2.len() implies has_entry(
                    watch,
                    (#[trigger] av2[i]).0,
                ) by {
                    if i < n {
                        assert(av2[i] == av[i]);
                    }
                }
            }
            assert forall|i: int, j: int| 0 <= i < j < av2.len() implies av2[i].0 != av2[j].0 by {
                if j == n {
                    assert(av2[i] == av[i]);
                } else {
                    assert(av2[i] == av[i] && av2[j] == av[j]);
                }
            }
            assert forall|i: int| 0 <= i < av2.len() implies (#[trigger] av2[i]).1.len() > 0
                && no_duplicate_pids(av2[i].1) by {
                if i < n {
                    assert(av2[i] == av[i]);
                }
            }
        },
    }
}

/// Handling a process start keeps the state invariant.
pub proof fn law_start_keeps_invariant(
    watch: Seq<WatchEntry>,
    name: Seq<char>,
    pid: u32,
    before: WatchState,
    after: WatchState,
    action: WatchAction,
)
    requires
        state_invariant(watch, before),
        started_outcome(watch, name, pid, before, after, action),
    ensures
        state_invariant(watch, after),
{
    lemma_started_view_keeps(watch, active_view(before.active@), normalized_name(name), pid);
}

/// Handling a process exit keeps the state invariant.
pub proof fn law_exit_keeps_invariant(
    watch: Seq<WatchEntry>,
    pid: u32,
    before: WatchState,
    after: WatchState,
    action: WatchAction,
)
    requires
        state_invariant(watch, before),
        exited_outcome(watch, pid, before, after, action),
    ensures
        state_invariant(watch, after),
{
    let av = active_view(before.active@);
    if let Some(p) = pid_owner(av, pid) {
        lemma_pid_owner_some(av, pid);
        let rest = without_pid(av[p].1, pid);
        lemma_without_pid_from(av[p].1, pid);
        if rest.len() > 0 {
            lemma_update_keeps_well_formed(watch, av, p, rest);
        } else {
            lemma_remove_keeps_well_formed(watch, av, p);
        }
    }
}

/// Reloading the configuration establishes the state invariant for the new
/// configuration, whatever the old one was.
pub proof fn law_reload_establishes_invariant(
    old_watch: Seq<WatchEntry>,
    new_watch: Seq<WatchEntry>,
    before: WatchState,
    after: WatchState,
    action: WatchAction,
)
    requires
        state_invariant(old_watch, before),
        reload_outcome(new_watch, before, after, action),
    ensures
        state_invariant(new_watch, after),
{
    let av = active_view(before.active@);
    lemma_retained_from(new_watch, av);
    let av2 = active_view(after.active@);
    if av2.len() == 0 {
        assert(winner(new_watch, av2) is None);
    }
}

/// Whatever configuration each event is handled under, handling it keeps
/// the state well-formed: each active process listed once, with at least one
/// process id and none twice, and no display control or baseline while
/// nothing is active. A request to capture the baseline comes only with an
/// active process.
pub proof fn law_event_keeps_well_formed(
    watch: Seq<WatchEntry>,
    event: ProcessEvent,
    before: WatchState,
    after: WatchState,
    action: WatchAction,
)
    requires
        state_well_formed(before),
        match event {
            ProcessEvent::Started { name, pid } => started_outcome(
                watch,
                name@,
                pid,
                before,
                after,
                action,
            ),
            ProcessEvent::Exited { pid } => exited_outcome(watch, pid, before, after, action),
        },
    ensures
        state_well_formed(after),
        action is CaptureBaseline ==> active_view(after.active@).len() > 0,
{
    let av = active_view(before.active@);
    match event {
        ProcessEvent::Started { name, pid } => {
            lemma_started_view_keeps(watch, av, normalized_name(name@), pid);
        },
        ProcessEvent::Exited { pid } => {
            if let Some(p) = pid_owner(av, pid) {
                lemma_pid_owner_some(av, pid);
                let rest = without_pid(av[p].1, pid);
                lemma_without_pid_from(av[p].1, pid);
                if rest.len() > 0 {
                    lemma_update_keeps_well_formed(watch, av, p, rest);
                } else {
                    lemma_remove_keeps_well_formed(watch, av, p);
                }
            }
        },
    }
}

/// Whatever configuration is loaded, a reload keeps the state well-formed.
pub proof fn law_reload_keeps_well_formed(
    watch: Seq<WatchEntry>,
    before: WatchState,
    after: WatchState,
    action: WatchAction,
)
    requires
        state_well_formed(before),
        reload_outcome(watch, before, after, action),
    ensures
        state_well_formed(after),
{
    lemma_retained_from(watch, active_view(before.active@));
    let av2 = active_view(after.active@);
    if av2.len() == 0 {
        assert(winner(watch, av2) is None);
    }
}

/// Recording the captured baseline, when a process is active (as after the
/// capture request of a start), keeps the state well-formed.
pub proof fn law_capture_keeps_well_formed(
    watch: Seq<WatchEntry>,
    before: WatchState,
    after: WatchState,
    snapshot: DisplaySnapshot,
    action: WatchAction,
)
    requires
        state_well_formed(before),
        active_view(before.active@).len() > 0,
        after.active == before.active,
        after.baseline == Some(snapshot),
        winner_decided(
            watch,
            active_view(before.active@),
            winner_view(before.current_winner),
            winner_view(after.current_winner),
            action,
        ),
    ensures
        state_well_formed(after),
{
}

/// A process that becomes active with a priority at least as high as every
/// active watched process takes display control: the highest priority wins,
/// and among equals the newest.
pub proof fn law_newest_highest_priority_wins(
    watch: Seq<WatchEntry>,
    av: Seq<(Seq<char>, Seq<u32>)>,
    key: Seq<char>,
    pid: u32,
)
    requires
        has_entry(watch, key),
        key_position(av, key) is None,
        forall|j: int|
            0 <= j < av.len() && has_entry(watch, (#[trigger] av[j]).0) ==> priority_of(
                watch,
                av[j].0,
            ) <= priority_of(watch, key),
    ensures
        winner_key(watch, started_view(av, key, pid)) == Some(key),
{
    let av2 = started_view(av, key, pid);
    let n = av.len() as int;
    assert(av2 == av.push((key, seq![pid])));
    assert forall|j: int| 0 <= j < av2.len() && has_entry(watch, (#[trigger] av2[j]).0) implies priority_of(
        watch,
        av2[j].0,
    ) <= priority_of(watch, av2[n].0) by {
        if j < n {
            assert(av2[j] == av[j]);
        }
    }
    assert(wins_within(watch, av2, av2.len() as int, n));
    lemma_winner_unique(watch, av2, n);
}

} // verus!
