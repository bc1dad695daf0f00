//! Running at log-on: the scheduled task that starts the helper, the legacy
//! registry value it replaces, and the steps of toggling the setting.
use vstd::prelude::*;

use crate::text::{blank, chars_of, is_blank, string_from_chars, trim, trimmed};

verus! {

/// The name of the scheduled task that starts the helper at log-on.
pub const STARTUP_TASK_NAME: &'static str = "ProcessDisplayHelperWin";

/// The registry key of the legacy start-up entry.
pub const LEGACY_RUN_REGISTRY_KEY: &'static str = "HKCU\\Software\\Microsoft\\Windows\\CurrentVersion\\Run";

/// The registry value name of the legacy start-up entry.
pub const LEGACY_RUN_REGISTRY_VALUE_NAME: &'static str = "ProcessDisplayHelperWin";

fn strings(parts: &[&str]) -> (v: Vec<String>)
    ensures
        v@.len() == parts@.len(),
        forall|i: int| 0 <= i < parts@.len() ==> (#[trigger] v@[i])@ == parts@[i]@,
{
    let mut v: Vec<String> = Vec::new();
    let mut i: usize = 0;
    while i < parts.len()
        invariant
            i <= parts@.len(),
            v@.len() == i,
            forall|j: int| 0 <= j < i ==> (#[trigger] v@[j])@ == parts@[j]@,
        decreases parts@.len() - i,
    {
        v.push(String::from_str(parts[i]));
        i = i + 1;
    }
    v
}

pub open spec fn string_views(v: Seq<String>) -> Seq<Seq<char>> {
    v.map_values(|s: String| s@)
}

/// `schtasks` arguments that create the log-on task running `command_value`
/// with the highest privileges, replacing any existing one.
pub fn add_startup_task_args(command_value: &str) -> (args: Vec<String>)
    ensures
        string_views(args@) == seq![
            "/Create"@,
            "/TN"@,
            STARTUP_TASK_NAME@,
            "/SC"@,
            "ONLOGON"@,
            "/RL"@,
            "HIGHEST"@,
            "/TR"@,
            command_value@,
            "/F"@,
        ],
{
    let args = strings(
        &[
            "/Create",
            "/TN",
            STARTUP_TASK_NAME,
            "/SC",
            "ONLOGON",
            "/RL",
            "HIGHEST",
            "/TR",
            command_value,
            "/F",
        ],
    );
    assert(string_views(args@) =~= seq![
        "/Create"@,
        "/TN"@,
        STARTUP_TASK_NAME@,
        "/SC"@,
        "ONLOGON"@,
        "/RL"@,
        "HIGHEST"@,
        "/TR"@,
        command_value@,
        "/F"@,
    ]);
    args
}

/// `schtasks` arguments that ask whether the log-on task exists.
pub fn query_startup_task_args() -> (args: Vec<String>)
    ensures
        string_views(args@) == seq!["/Query"@, "/TN"@, STARTUP_TASK_NAME@],
{
    let args = strings(&["/Query", "/TN", STARTUP_TASK_NAME]);
    assert(string_views(args@) =~= seq!["/Query"@, "/TN"@, STARTUP_TASK_NAME@]);
    args
}

/// `schtasks` arguments that delete the log-on task.
pub fn delete_startup_task_args() -> (args: Vec<String>)
    ensures
        string_views(args@) == seq!["/Delete"@, "/TN"@, STARTUP_TASK_NAME@, "/F"@],
{
    let args = strings(&["/Delete", "/TN", STARTUP_TASK_NAME, "/F"]);
    assert(string_views(args@) =~= seq!["/Delete"@, "/TN"@, STARTUP_TASK_NAME@, "/F"@]);
    args
}

/// `reg` arguments that ask whether the legacy start-up value exists.
pub fn query_legacy_value_args() -> (args: Vec<String>)
    ensures
        string_views(args@) == seq![
            "query"@,
            LEGACY_RUN_REGISTRY_KEY@,
            "/v"@,
            LEGACY_RUN_REGISTRY_VALUE_NAME@,
        ],
{
    let args = strings(&["query", LEGACY_RUN_REGISTRY_KEY, "/v", LEGACY_RUN_REGISTRY_VALUE_NAME]);
    assert(string_views(args@) =~= seq![
        "query"@,
        LEGACY_RUN_REGISTRY_KEY@,
        "/v"@,
        LEGACY_RUN_REGISTRY_VALUE_NAME@,
    ]);
    args
}

/// `reg` arguments that delete the legacy start-up value.
pub fn delete_legacy_value_args() -> (args: Vec<String>)
    ensures
        string_views(args@) == seq![
            "delete"@,
            LEGACY_RUN_REGISTRY_KEY@,
            "/v"@,
            LEGACY_RUN_REGISTRY_VALUE_NAME@,
            "/f"@,
        ],
{
    let args = strings(
        &["delete", LEGACY_RUN_REGISTRY_KEY, "/v", LEGACY_RUN_REGISTRY_VALUE_NAME, "/f"],
    );
    assert(string_views(args@) =~= seq![
        "delete"@,
        LEGACY_RUN_REGISTRY_KEY@,
        "/v"@,
        LEGACY_RUN_REGISTRY_VALUE_NAME@,
        "/f"@,
    ]);
    args
}

/// The command that the log-on task runs: the executable's path in double
/// quotes.
pub fn startup_task_command_value(exe_path: &str) -> (cmd: String)
    ensures
        cmd@ == "\""@ + exe_path@ + "\""@,
{
    let mut cmd = String::from_str("\"");
    cmd.append(exe_path);
    cmd.append("\"");
    cmd
}

/// What a failed command said: its trimmed error output, or its trimmed
/// standard output when the error output is blank.
pub fn command_failure_details(stderr: &str, stdout: &str) -> (details: String)
    ensures
        details@ == if is_blank(stderr@) {
            trim(stdout@)
        } else {
            trim(stderr@)
        },
{
    let err = chars_of(stderr);
    if blank(err.as_slice()) {
        let out = chars_of(stdout);
        let t = trimmed(out.as_slice());
        string_from_chars(t.as_slice())
    } else {
        let t = trimmed(err.as_slice());
        proof {
            crate::text::lemma_blank_iff_all_white_space(err@);
        }
        string_from_chars(t.as_slice())
    }
}

/// One change made to apply the start-up setting.
#[derive(Debug, Clone, Copy, PartialEq, Eq)]
pub enum StartupCommand {
    /// Create (or replace) the log-on task.
    AddTask,
    /// Delete the log-on task if it exists.
    RemoveTask,
    /// Delete the legacy registry value if it exists.
    RemoveLegacyValue,
}

/// Applying the start-up setting: create or delete the log-on task (a
/// failure fails the setting), then delete the legacy registry value either
/// way (a failure there is only reported). Each step pairs the command with
/// whether its failure fails the setting.
pub fn startup_setting_steps(enabled: bool) -> (steps: Vec<(StartupCommand, bool)>)
    ensures
        steps@ == seq![
            (if enabled {
                StartupCommand::AddTask
            } else {
                StartupCommand::RemoveTask
            }, true),
            (StartupCommand::RemoveLegacyValue, false),
        ],
{
    let mut steps: Vec<(StartupCommand, bool)> = Vec::new();
    if enabled {
        steps.push((StartupCommand::AddTask, true));
    } else {
        steps.push((StartupCommand::RemoveTask, true));
    }
    steps.push((StartupCommand::RemoveLegacyValue, false));
    assert(steps@ =~= seq![
        (if enabled {
            StartupCommand::AddTask
        } else {
            StartupCommand::RemoveTask
        }, true),
        (StartupCommand::RemoveLegacyValue, false),
    ]);
    steps
}

/// A step of toggling the start-up setting from the tray menu.
#[derive(Debug, Clone, Copy, PartialEq, Eq)]
pub enum ToggleStep {
    /// Apply this setting to the system.
    Apply(bool),
    /// Write this setting to the configuration file.
    Persist(bool),
    /// Put the system back to this setting (a failure is only reported).
    RollBack(bool),
    /// The setting changed: take the written configuration.
    Succeeded,
    /// The setting did not change: keep the previous one.
    Failed,
}

/// Toggling starts by applying the opposite of the current setting.
pub fn toggle_begin(previous: bool) -> (step: ToggleStep)
    ensures
        step == ToggleStep::Apply(!previous),
{
    ToggleStep::Apply(!previous)
}

/// The step after `step` finished (`ok` tells whether it succeeded). A
/// failed application stops with the previous setting; a failed write puts
/// the system back to the previous setting, then stops.
pub fn toggle_next(previous: bool, step: ToggleStep, ok: bool) -> (next: ToggleStep)
    ensures
        next == match step {
            ToggleStep::Apply(target) => if ok {
                ToggleStep::Persist(target)
            } else {
                ToggleStep::Failed
            },
            ToggleStep::Persist(_) => if ok {
                ToggleStep::Succeeded
            } else {
                ToggleStep::RollBack(previous)
            },
            ToggleStep::RollBack(_) => ToggleStep::Failed,
            ToggleStep::Succeeded => ToggleStep::Succeeded,
            ToggleStep::Failed => ToggleStep::Failed,
        },
{
    match step {
        ToggleStep::Apply(target) => if ok {
            ToggleStep::Persist(target)
        } else {
            ToggleStep::Failed
        },
        ToggleStep::Persist(_) => if ok {
            ToggleStep::Succeeded
        } else {
            ToggleStep::RollBack(previous)
        },
        ToggleStep::RollBack(_) => ToggleStep::Failed,
        ToggleStep::Succeeded => ToggleStep::Succeeded,
        ToggleStep::Failed => ToggleStep::Failed,
    }
}

} // verus!
