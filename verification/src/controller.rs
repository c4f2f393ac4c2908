//! The decisions and messages of the process controller: which saved
//! priorities to re-apply on a refresh, what a refresh counts, and the status
//! lines shown to the user.
use vstd::prelude::*;

use crate::priority::ApplyResult;
use crate::process::{Application, ApplicationSnapshot, ApplicationView, SnapshotView};
use crate::rules::SavedRules;
use crate::text::{
    chars_of, decimal, push_decimal, push_signed_decimal, push_str, signed_decimal, string_of,
};

verus! {

broadcast use vstd::string::group_string_axioms;

// ---------------------------------------------------------------------------
// Saved priorities on the application list.
// ---------------------------------------------------------------------------

/// `a` with its saved priority set to `saved`, everything else unchanged.
pub open spec fn with_saved_nice(a: ApplicationView, saved: Option<i32>) -> ApplicationView {
    ApplicationView { saved_nice: saved, ..a }
}

/// The saved priority of an application's rule key, if any.
pub open spec fn saved_for(rules: Map<Seq<char>, i32>, a: ApplicationView) -> Option<i32> {
    if rules.dom().contains(a.rule_key) {
        Some(rules[a.rule_key])
    } else {
        None
    }
}

/// Records on each application the priority saved for its rule key.
pub fn attach_saved_rules(snapshots: &mut Vec<ApplicationSnapshot>, rules: &SavedRules)
    ensures
        final(snapshots)@.len() == old(snapshots)@.len(),
        forall|i: int|
            0 <= i < final(snapshots)@.len() ==> (#[trigger] final(snapshots)@[i])@ == (SnapshotView {
                application: with_saved_nice(
                    old(snapshots)@[i]@.application,
                    saved_for(rules@, old(snapshots)@[i]@.application),
                ),
                processes: old(snapshots)@[i]@.processes,
            }),
{
    let ghost before = snapshots@;
    let mut i: usize = 0;
    while i < snapshots.len()
        invariant
            i <= snapshots.len(),
            snapshots@.len() == before.len(),
            forall|k: int| i <= k < snapshots@.len() ==> #[trigger] snapshots@[k] == before[k],
            forall|k: int|
                0 <= k < i ==> (#[trigger] snapshots@[k])@ == (SnapshotView {
                    application: with_saved_nice(
                        before[k]@.application,
                        saved_for(rules@, before[k]@.application),
                    ),
                    processes: before[k]@.processes,
                }),
        decreases snapshots.len() - i,
    {
        let saved = match rules.get(&snapshots[i].application.rule_key) {
            Some(v) => Some(*v),
            None => None,
        };
        let mut snap = snapshots.remove(i);
        snap.application.saved_nice = saved;
        snapshots.insert(i, snap);
        i += 1;
    }
}

/// Records `saved` on every application whose rule key is `rule_key`.
pub fn mark_saved(snapshot: &mut ApplicationSnapshot, rule_key: &str, saved: Option<i32>)
    ensures
        final(snapshot)@ == (if old(snapshot)@.application.rule_key == rule_key@ {
            SnapshotView {
                application: with_saved_nice(old(snapshot)@.application, saved),
                processes: old(snapshot)@.processes,
            }
        } else {
            old(snapshot)@
        }),
{
    if crate::text::same_chars(&chars_of(&snapshot.application.rule_key), &chars_of(rule_key)) {
        snapshot.application.saved_nice = saved;
    }
}

// ---------------------------------------------------------------------------
// Re-applying saved priorities on a refresh.
// ---------------------------------------------------------------------------

/// The saved priority to re-apply to an application: its saved value, unless
/// all its processes already run at that value.
pub open spec fn reapply_target(a: ApplicationView) -> Option<i32> {
    match a.saved_nice {
        Some(desired) => if !a.mixed_priority && a.nice == desired {
            None
        } else {
            Some(desired)
        },
        None => None,
    }
}

/// The saved priority to re-apply to an application (see `reapply_target`).
pub fn saved_priority_to_apply(application: &Application) -> (r: Option<i32>)
    ensures
        r == reapply_target(application@),
{
    match application.saved_nice {
        Some(desired) => if !application.mixed_priority && application.nice == desired {
            None
        } else {
            Some(desired)
        },
        None => None,
    }
}

/// What re-applying saved priorities during a refresh came to: processes
/// changed, applications changed, and processes that need authorization.
#[derive(Debug)]
pub struct RefreshTally {
    pub auto_changed: usize,
    pub auto_apps: usize,
    pub auto_denied: usize,
}

impl RefreshTally {
    /// Nothing re-applied yet.
    pub fn new() -> (r: Self)
        ensures
            r.auto_changed == 0 && r.auto_apps == 0 && r.auto_denied == 0,
    {
        RefreshTally { auto_changed: 0, auto_apps: 0, auto_denied: 0 }
    }

    /// Counts the result of re-applying `desired` to `application`; when it
    /// changed every process, the application is shown at `desired` without
    /// mixed priorities until the next refresh.
    pub fn record(&mut self, application: &mut Application, desired: i32, result: &ApplyResult)
        requires
            old(self).auto_changed + result.changed <= usize::MAX,
            old(self).auto_apps < usize::MAX,
            old(self).auto_denied + result.denied <= usize::MAX,
        ensures
            final(self).auto_changed == old(self).auto_changed + result.changed,
            final(self).auto_apps == old(self).auto_apps + if result.changed > 0 {
                1int
            } else {
                0int
            },
            final(self).auto_denied == old(self).auto_denied + result.denied,
            final(application)@ == if result.changed > 0 && result.denied == 0 && result.failed
                == 0 && result.stale == 0 {
                ApplicationView { nice: desired, mixed_priority: false, ..old(application)@ }
            } else {
                old(application)@
            },
    {
        if result.changed > 0 {
            self.auto_changed += result.changed;
            self.auto_apps += 1;
            if result.denied == 0 && result.failed == 0 && result.stale == 0 {
                application.nice = desired;
                application.mixed_priority = false;
            }
        }
        self.auto_denied += result.denied;
    }
}

// ---------------------------------------------------------------------------
// Status lines.
// ---------------------------------------------------------------------------

/// The status line after a refresh.
pub open spec fn refresh_message_spec(auto_changed: nat, auto_apps: nat, auto_denied: nat) -> Seq<char> {
    "Applications updated"@ + (if auto_changed > 0 {
        " \u{b7} re-applied "@ + decimal(auto_apps) + (if auto_apps == 1 {
            " saved priority ("@
        } else {
            " saved priorities ("@
        }) + decimal(auto_changed) + " process(es))"@
    } else {
        Seq::empty()
    }) + (if auto_denied > 0 {
        " \u{b7} "@ + decimal(auto_denied) + " process(es) need authorization"@
    } else {
        Seq::empty()
    })
}

/// The status line after a refresh (see `refresh_message_spec`).
pub fn refresh_message(tally: &RefreshTally) -> (r: String)
    ensures
        r@ == refresh_message_spec(
            tally.auto_changed as nat,
            tally.auto_apps as nat,
            tally.auto_denied as nat,
        ),
{
    let mut out = chars_of("Applications updated");
    let ghost start = out@;
    if tally.auto_changed > 0 {
        push_str(&mut out, " \u{b7} re-applied ");
        push_decimal(&mut out, tally.auto_apps as u64);
        if tally.auto_apps == 1 {
            push_str(&mut out, " saved priority (");
        } else {
            push_str(&mut out, " saved priorities (");
        }
        push_decimal(&mut out, tally.auto_changed as u64);
        push_str(&mut out, " process(es))");
    }
    let ghost middle = out@;
    if tally.auto_denied > 0 {
        push_str(&mut out, " \u{b7} ");
        push_decimal(&mut out, tally.auto_denied as u64);
        push_str(&mut out, " process(es) need authorization");
    }
    assert(out@ =~= refresh_message_spec(
        tally.auto_changed as nat,
        tally.auto_apps as nat,
        tally.auto_denied as nat,
    ));
    string_of(&out)
}

/// The status line after applying a priority to application `name`.
pub open spec fn apply_message_spec(name: Seq<char>, changed: nat, stale: nat, denied: nat, failed: nat) -> Seq<char> {
    if denied > 0 {
        "Changed "@ + decimal(changed) + " process(es) for "@ + name + "; "@ + decimal(denied)
            + " require authorization"@
    } else if failed > 0 || stale > 0 {
        "Changed "@ + decimal(changed) + " process(es) for "@ + name + "; "@ + decimal(stale)
            + " exited and "@ + decimal(failed) + " failed"@
    } else {
        "Priority updated for "@ + name + " ("@ + decimal(changed) + " process(es))"@
    }
}

/// The status line after applying a priority (see `apply_message_spec`).
pub fn apply_message(name: &str, result: &ApplyResult) -> (r: String)
    ensures
        r@ == apply_message_spec(
            name@,
            result.changed as nat,
            result.stale as nat,
            result.denied as nat,
            result.failed as nat,
        ),
{
    let mut out: Vec<char> = Vec::new();
    if result.denied > 0 {
        push_str(&mut out, "Changed ");
        push_decimal(&mut out, result.changed as u64);
        push_str(&mut out, " process(es) for ");
        push_str(&mut out, name);
        push_str(&mut out, "; ");
        push_decimal(&mut out, result.denied as u64);
        push_str(&mut out, " require authorization");
    } else if result.failed > 0 || result.stale > 0 {
        push_str(&mut out, "Changed ");
        push_decimal(&mut out, result.changed as u64);
        push_str(&mut out, " process(es) for ");
        push_str(&mut out, name);
        push_str(&mut out, "; ");
        push_decimal(&mut out, result.stale as u64);
        push_str(&mut out, " exited and ");
        push_decimal(&mut out, result.failed as u64);
        push_str(&mut out, " failed");
    } else {
        push_str(&mut out, "Priority updated for ");
        push_str(&mut out, name);
        push_str(&mut out, " (");
        push_decimal(&mut out, result.changed as u64);
        push_str(&mut out, " process(es))");
    }
    assert(out@ =~= apply_message_spec(
        name@,
        result.changed as nat,
        result.stale as nat,
        result.denied as nat,
        result.failed as nat,
    ));
    string_of(&out)
}

/// The status line after saving priority `nice` for application `name`.
pub open spec fn save_message_spec(nice: int, name: Seq<char>, changed: nat, denied: nat) -> Seq<char> {
    if denied > 0 {
        "Saved priority "@ + signed_decimal(nice) + " for "@ + name + "; "@ + decimal(denied)
            + " process(es) need authorization and will apply later"@
    } else {
        "Saved priority "@ + signed_decimal(nice) + " for "@ + name + " ("@ + decimal(changed)
            + " process(es) updated)"@
    }
}

/// The status line after saving a priority (see `save_message_spec`).
pub fn save_message(nice: i32, name: &str, result: &ApplyResult) -> (r: String)
    ensures
        r@ == save_message_spec(nice as int, name@, result.changed as nat, result.denied as nat),
{
    let mut out = chars_of("Saved priority ");
    push_signed_decimal(&mut out, nice as i64);
    push_str(&mut out, " for ");
    push_str(&mut out, name);
    if result.denied > 0 {
        push_str(&mut out, "; ");
        push_decimal(&mut out, result.denied as u64);
        push_str(&mut out, " process(es) need authorization and will apply later");
    } else {
        push_str(&mut out, " (");
        push_decimal(&mut out, result.changed as u64);
        push_str(&mut out, " process(es) updated)");
    }
    assert(out@ =~= save_message_spec(nice as int, name@, result.changed as nat, result.denied as nat));
    string_of(&out)
}

/// The status line after turning autostart on or off.
pub open spec fn autostart_message_spec(enabled: bool) -> Seq<char> {
    if enabled {
        "Application Priority Setter will start when you log in"@
    } else {
        "Application Priority Setter will no longer start at login"@
    }
}

/// The status line after turning autostart on or off.
pub fn autostart_message(enabled: bool) -> (r: String)
    ensures
        r@ == autostart_message_spec(enabled),
{
    if enabled {
        "Application Priority Setter will start when you log in".to_owned()
    } else {
        "Application Priority Setter will no longer start at login".to_owned()
    }
}

/// The status line when the chosen application has left the process list.
pub fn missing_application_message() -> (r: String)
    ensures
        r@ == "That application is no longer in the current process list"@,
{
    "That application is no longer in the current process list".to_owned()
}

/// The status line when application `name` has no saved priority to forget.
pub fn no_saved_priority_message(name: &str) -> (r: String)
    ensures
        r@ == "No saved priority for "@ + name@,
{
    let mut out = chars_of("No saved priority for ");
    push_str(&mut out, name);
    string_of(&out)
}

/// The status line after forgetting the saved priority of application `name`.
pub fn forgot_priority_message(name: &str) -> (r: String)
    ensures
        r@ == "Forgot the saved priority for "@ + name@,
{
    let mut out = chars_of("Forgot the saved priority for ");
    push_str(&mut out, name);
    string_of(&out)
}

/// The status line when the rules file could not be written while forgetting
/// the priority of application `name`; `error` describes the failure.
pub fn forget_failed_message(name: &str, error: &str) -> (r: String)
    ensures
        r@ == "Could not forget the priority for "@ + name@ + ": "@ + error@,
{
    let mut out = chars_of("Could not forget the priority for ");
    push_str(&mut out, name);
    push_str(&mut out, ": ");
    push_str(&mut out, error);
    string_of(&out)
}

/// The status line when the rules file could not be written while saving the
/// priority of application `name`; `error` describes the failure.
pub fn save_failed_message(name: &str, error: &str) -> (r: String)
    ensures
        r@ == "Could not save the priority for "@ + name@ + ": "@ + error@,
{
    let mut out = chars_of("Could not save the priority for ");
    push_str(&mut out, name);
    push_str(&mut out, ": ");
    push_str(&mut out, error);
    string_of(&out)
}

/// The status line when the autostart entry could not be changed.
pub fn autostart_failed_message(error: &str) -> (r: String)
    ensures
        r@ == "Could not change the startup setting: "@ + error@,
{
    let mut out = chars_of("Could not change the startup setting: ");
    push_str(&mut out, error);
    string_of(&out)
}

/// The status line when the running applications could not be read.
pub fn scan_failed_message(error: &str) -> (r: String)
    ensures
        r@ == "Could not read running applications: "@ + error@,
{
    let mut out = chars_of("Could not read running applications: ");
    push_str(&mut out, error);
    string_of(&out)
}

/// The status line when the application list could not be prepared for the
/// interface.
pub fn list_failed_message(error: &str) -> (r: String)
    ensures
        r@ == "Could not prepare the process list: "@ + error@,
{
    let mut out = chars_of("Could not prepare the process list: ");
    push_str(&mut out, error);
    string_of(&out)
}

// ---------------------------------------------------------------------------
// Laws.
// ---------------------------------------------------------------------------

/// Re-applying settles: once re-applying an application's saved priority
/// changed every one of its processes, the next refresh finds nothing to
/// re-apply for it.
pub proof fn law_reapply_settles(before: ApplicationView, after: ApplicationView, desired: i32)
    requires
        reapply_target(before) == Some(desired),
        after == (ApplicationView { nice: desired, mixed_priority: false, ..before }),
    ensures
        reapply_target(after) is None,
{
}

/// Attaching the saved rules and then re-applying only ever targets the
/// saved value of the application's own rule key.
pub proof fn law_reapply_uses_the_saved_rule(rules: Map<Seq<char>, i32>, a: ApplicationView)
    ensures
        reapply_target(with_saved_nice(a, saved_for(rules, a))) matches Some(d) ==> rules.dom().contains(
            a.rule_key,
        ) && rules[a.rule_key] == d,
{
}

} // verus!
