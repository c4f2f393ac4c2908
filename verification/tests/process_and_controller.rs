use application_priority_setter::controller::{
    apply_message, attach_saved_rules, autostart_failed_message, autostart_message,
    forget_failed_message, forgot_priority_message, list_failed_message, mark_saved,
    missing_application_message, no_saved_priority_message, refresh_message, save_failed_message,
    save_message, saved_priority_to_apply, scan_failed_message, RefreshTally,
};
use application_priority_setter::desktop::DesktopEntry;
use application_priority_setter::priority::{
    change_outcome, is_still_running, tally, ApplyOutcome, ApplyResult,
};
use application_priority_setter::process::{
    applications_from_processes, build_application, effective_uid, find_tree_root, friendly_name,
    is_launch_boundary, parse_application_scope, parse_stat, process_from_proc,
    stat_brackets_in_order, status_uid, ApplicationScope, ApplicationSnapshot, Process,
    ProcessIdentity,
};
use application_priority_setter::rules::SavedRules;

fn proc_of(pid: i32, parent_pid: i32, uid: u32, name: &str, executable: &str, nice: i32) -> Process {
    Process {
        identity: ProcessIdentity {
            pid,
            start_time: pid as u64 * 10,
        },
        parent_pid,
        uid,
        name: name.to_owned(),
        executable: executable.to_owned(),
        nice,
        application_scope: None,
    }
}

fn scoped(mut process: Process, key: &str, app_id: &str) -> Process {
    process.application_scope = Some(ApplicationScope {
        key: key.to_owned(),
        app_id: app_id.to_owned(),
    });
    process
}

fn tool_entry() -> DesktopEntry {
    DesktopEntry {
        id: "org.example.Tool".to_owned(),
        name: "Example Tool".to_owned(),
        icon: "tool-icon".to_owned(),
        executable: "tool".to_owned(),
        startup_class: String::new(),
    }
}

fn result_of(changed: usize, stale: usize, denied: usize, failed: usize) -> ApplyResult {
    ApplyResult {
        changed,
        stale,
        denied,
        failed,
    }
}

const STAT_TAIL: &str = "S 7 2 3 4 5 6 7 8 9 10 11 12 13 14 15 3 17 18 999";

#[test]
fn stat_lines_without_enough_fields_are_refused() {
    let stat = parse_stat(&format!("5 (worker) {STAT_TAIL}")).unwrap();
    assert_eq!(stat.name, "worker");
    assert_eq!(stat.parent_pid, 7);
    assert_eq!(stat.nice, 3);
    assert_eq!(stat.start_time, 999);
    assert!(parse_stat("5 worker S 7").is_none());
    assert!(parse_stat("5 (worker) S 7 2 3").is_none());
    assert!(parse_stat("5 (worker) S x 2 3 4 5 6 7 8 9 10 11 12 13 14 15 3 17 18 999").is_none());
    assert!(parse_stat("5 (w) S 7 2 3 4 5 6 7 8 9 10 11 12 13 14 15 3 17 18 -1").is_none());
    assert!(stat_brackets_in_order("1 (a) b"));
    assert!(stat_brackets_in_order("no brackets"));
    assert!(!stat_brackets_in_order("1 ) a ("));
}

#[test]
fn status_files_give_real_and_effective_ids() {
    let status = "Name:\tx\nUmask:\t0022\nUid:\t1000\t1001\t1000\t1000\nGid:\t5\n";
    assert_eq!(status_uid(status, 0), Some(1000));
    assert_eq!(effective_uid(status), Some(1001));
    assert_eq!(status_uid(status, 4), None);
    assert_eq!(status_uid("Name:\tx\n", 0), None);
    assert_eq!(status_uid("Uid:\tabc\n", 0), None);
    assert_eq!(status_uid("Uid:\t7\nUid:\t8\n", 0), Some(7));
}

#[test]
fn scope_names_lose_their_prefixes_and_instance_numbers() {
    let scope = |text: &str| parse_application_scope(text).map(|s| (s.key, s.app_id));
    assert_eq!(
        scope("0::/app.slice/app-foo-bar.scope\n"),
        Some(("app-foo-bar.scope".to_owned(), "foo-bar".to_owned()))
    );
    assert_eq!(
        scope("0::/app.slice/app-gnome\\x2dterminal-12.scope"),
        Some((
            "app-gnome\\x2dterminal-12.scope".to_owned(),
            "gnome-terminal".to_owned()
        ))
    );
    assert_eq!(
        scope("0::/app-app-foo.scope"),
        Some(("app-app-foo.scope".to_owned(), "foo".to_owned()))
    );
    assert_eq!(
        scope("0::/app-foo-.scope"),
        Some(("app-foo-.scope".to_owned(), "foo".to_owned()))
    );
    assert_eq!(scope("1:name=systemd:/app.slice/app-foo.scope\n"), None);
    assert_eq!(scope("0::/user.slice/session-2.scope\n"), None);
    assert_eq!(scope(""), None);
}

#[test]
fn friendly_names_fall_back_to_the_process_name() {
    assert_eq!(friendly_name("ignored", "/opt/game/Game.bin"), "Game");
    assert_eq!(friendly_name("name_from-proc", ""), "Name From Proc");
    assert_eq!(friendly_name("x", "/usr/bin/my--app"), "My App");
    assert_eq!(friendly_name("x", "/usr/bin/\u{df}tra\u{df}e"), "SStra\u{df}e");
}

#[test]
fn shells_and_terminals_are_launch_boundaries() {
    assert!(is_launch_boundary(&proc_of(1, 0, 0, "x", "/usr/bin/bash", 0)));
    assert!(is_launch_boundary(&proc_of(1, 0, 0, "zsh", "", 0)));
    assert!(is_launch_boundary(&proc_of(1, 0, 0, "x", "/usr/bin/Konsole", 0)));
    assert!(!is_launch_boundary(&proc_of(1, 0, 0, "bash", "/usr/bin/foo", 0)));
    assert!(!is_launch_boundary(&proc_of(1, 0, 0, "x", "/usr/bin/bashful", 0)));
}

#[test]
fn parent_cycles_end_the_walk() {
    let processes = vec![
        proc_of(1, 2, 1000, "a", "/usr/bin/a", 0),
        proc_of(2, 1, 1000, "b", "/usr/bin/b", 0),
    ];
    assert_eq!(find_tree_root(1, &processes), 1);
    assert_eq!(find_tree_root(2, &processes), 2);
    assert_eq!(find_tree_root(99, &processes), 99);
}

#[test]
fn descendants_share_the_root_of_their_parent() {
    let processes = vec![
        proc_of(10, 1, 1000, "sh", "/bin/sh", 0),
        proc_of(20, 10, 1000, "app", "/usr/bin/app", 0),
        proc_of(21, 20, 1000, "app-helper", "/usr/bin/app-helper", 0),
        proc_of(22, 21, 1000, "app-gpu", "/usr/bin/app-gpu", 0),
    ];
    assert_eq!(find_tree_root(22, &processes), find_tree_root(21, &processes));
    assert_eq!(find_tree_root(21, &processes), 20);
}

#[test]
fn processes_are_read_from_their_proc_files() {
    let status = "Name:\tworker\nUid:\t1000\t1000\t1000\t1000\n";
    let stat = format!("5 (worker) {STAT_TAIL}");
    let p = process_from_proc(
        5,
        status,
        &stat,
        "/usr/bin/worker".to_owned(),
        Some("0::/app.slice/app-org.example.Worker-3.scope\n"),
    )
    .unwrap();
    assert_eq!(p.identity.pid, 5);
    assert_eq!(p.identity.start_time, 999);
    assert_eq!(p.parent_pid, 7);
    assert_eq!(p.uid, 1000);
    assert_eq!(p.name, "worker");
    assert_eq!(p.executable, "/usr/bin/worker");
    assert_eq!(p.nice, 3);
    assert_eq!(p.application_scope.unwrap().app_id, "org.example.Worker");

    let unscoped = process_from_proc(5, status, &stat, String::new(), None).unwrap();
    assert!(unscoped.application_scope.is_none());
    assert!(process_from_proc(5, "Name:\tworker\n", &stat, String::new(), None).is_none());
    assert!(process_from_proc(5, status, "5 worker", String::new(), None).is_none());
}

#[test]
fn applications_group_the_current_users_processes() {
    let candidates = vec![
        proc_of(10, 1, 1000, "bash", "/usr/bin/bash", 0),
        proc_of(20, 10, 1000, "example-app", "/usr/bin/example-app", 0),
        proc_of(21, 20, 1000, "example-helper", "/usr/bin/example-helper", 5),
        proc_of(30, 1, 0, "root-daemon", "/usr/sbin/daemon", 0),
        proc_of(40, 10, 1000, "priority-setter", "/usr/bin/priority-setter", 0),
        scoped(
            proc_of(51, 1, 1000, "tool-worker", "/usr/lib/tool-worker", 2),
            "app-org.example.Tool-99.scope",
            "org.example.Tool",
        ),
        scoped(
            proc_of(50, 1, 1000, "tool", "/usr/bin/Tool", 2),
            "app-org.example.Tool-99.scope",
            "org.example.Tool",
        ),
    ];
    let entries = vec![tool_entry()];
    let apps = applications_from_processes(&candidates, 1000, 40, &entries);
    assert_eq!(apps.len(), 3);

    let bash = &apps[0].application;
    assert_eq!(bash.key, "tree:10:100");
    assert_eq!(bash.name, "Bash");
    assert_eq!(bash.rule_key, "exe:/usr/bin/bash");
    assert_eq!(bash.pids, vec![10]);
    assert_eq!(bash.icon, "");
    assert_eq!(bash.saved_nice, None);

    let app = &apps[1].application;
    assert_eq!(app.key, "tree:20:200");
    assert_eq!(app.name, "Example App");
    assert_eq!(app.main_pid, 20);
    assert_eq!(app.process_count, 2);
    assert_eq!(app.pids, vec![20, 21]);
    assert_eq!(app.nice, 0);
    assert!(app.mixed_priority);
    assert_eq!(apps[1].processes.len(), 2);
    assert_eq!(apps[1].processes[1].start_time, 210);

    let tool = &apps[2].application;
    assert_eq!(tool.key, "scope:app-org.example.Tool-99.scope");
    assert_eq!(tool.name, "Example Tool");
    assert_eq!(tool.icon, "tool-icon");
    assert_eq!(tool.rule_key, "desktop:org.example.Tool");
    assert_eq!(tool.main_pid, 50);
    assert_eq!(tool.executable, "/usr/bin/Tool");
    assert_eq!(tool.pids, vec![50, 51]);
    assert!(!tool.mixed_priority);

    let counted: usize = apps.iter().map(|a| a.application.process_count).sum();
    assert_eq!(counted, 5);
}

#[test]
fn same_named_applications_are_listed_by_main_pid() {
    let candidates = vec![
        proc_of(31, 1, 7, "editor", "/usr/bin/editor", 0),
        proc_of(12, 1, 7, "Editor", "/usr/bin/Editor", 0),
    ];
    let apps = applications_from_processes(&candidates, 7, 0, &Vec::new());
    let mains: Vec<i32> = apps.iter().map(|a| a.application.main_pid).collect();
    assert_eq!(mains, vec![12, 31]);
}

#[test]
fn groups_without_their_root_use_the_member_whose_parent_is_outside() {
    let members = vec![
        proc_of(5, 9, 1, "child", "/usr/bin/child", 0),
        proc_of(9, 1, 1, "parent", "/usr/bin/parent", 0),
    ];
    let key: Vec<char> = "scope:x".chars().collect();
    let snap = build_application(&key, &None, 0, &members, &Vec::new()).unwrap();
    assert_eq!(snap.application.main_pid, 9);
    assert_eq!(snap.application.name, "Parent");
    let snap = build_application(&key, &None, 5, &members, &Vec::new()).unwrap();
    assert_eq!(snap.application.main_pid, 5);
    assert!(build_application(&key, &None, 0, &Vec::new(), &Vec::new()).is_none());
}

#[test]
fn outcomes_are_tallied_once_each() {
    let identity = ProcessIdentity {
        pid: 3,
        start_time: 77,
    };
    assert!(is_still_running(&identity, Some(77)));
    assert!(!is_still_running(&identity, Some(78)));
    assert!(!is_still_running(&identity, None));
    assert_eq!(change_outcome(0, true), ApplyOutcome::Changed);
    assert_eq!(change_outcome(-1, true), ApplyOutcome::Denied);
    assert_eq!(change_outcome(-1, false), ApplyOutcome::Failed);

    let outcomes = vec![
        ApplyOutcome::Changed,
        ApplyOutcome::Stale,
        ApplyOutcome::Changed,
        ApplyOutcome::Denied,
        ApplyOutcome::Failed,
        ApplyOutcome::Changed,
    ];
    let r = tally(&outcomes);
    assert_eq!((r.changed, r.stale, r.denied, r.failed), (3, 1, 1, 1));
    assert_eq!(r.changed + r.stale + r.denied + r.failed, outcomes.len());
    let empty = tally(&Vec::new());
    assert_eq!((empty.changed, empty.stale, empty.denied, empty.failed), (0, 0, 0, 0));
}

#[test]
fn status_lines_name_the_counts() {
    assert_eq!(
        apply_message("Editor", &result_of(3, 0, 0, 0)),
        "Priority updated for Editor (3 process(es))"
    );
    assert_eq!(
        apply_message("Editor", &result_of(1, 0, 2, 1)),
        "Changed 1 process(es) for Editor; 2 require authorization"
    );
    assert_eq!(
        apply_message("Editor", &result_of(1, 2, 0, 1)),
        "Changed 1 process(es) for Editor; 2 exited and 1 failed"
    );
    assert_eq!(
        save_message(-5, "Editor", &result_of(4, 0, 0, 0)),
        "Saved priority -5 for Editor (4 process(es) updated)"
    );
    assert_eq!(
        save_message(10, "Editor", &result_of(0, 0, 3, 0)),
        "Saved priority 10 for Editor; 3 process(es) need authorization and will apply later"
    );
    assert_eq!(
        autostart_message(true),
        "Application Priority Setter will start when you log in"
    );
    assert_eq!(
        autostart_message(false),
        "Application Priority Setter will no longer start at login"
    );
}

#[test]
fn refresh_lines_report_what_was_reapplied() {
    let mut t = RefreshTally::new();
    assert_eq!(refresh_message(&t), "Applications updated");
    t.auto_changed = 4;
    t.auto_apps = 1;
    assert_eq!(
        refresh_message(&t),
        "Applications updated \u{b7} re-applied 1 saved priority (4 process(es))"
    );
    t.auto_apps = 2;
    t.auto_denied = 3;
    assert_eq!(
        refresh_message(&t),
        "Applications updated \u{b7} re-applied 2 saved priorities (4 process(es)) \u{b7} 3 process(es) need authorization"
    );
    t.auto_changed = 0;
    assert_eq!(
        refresh_message(&t),
        "Applications updated \u{b7} 3 process(es) need authorization"
    );
}

fn snapshot_of(rule_key: &str, nice: i32, mixed: bool) -> ApplicationSnapshot {
    let candidates = vec![proc_of(8, 1, 1, "app", "/usr/bin/app", nice)];
    let mut snap = applications_from_processes(&candidates, 1, 0, &Vec::new()).remove(0);
    snap.application.rule_key = rule_key.to_owned();
    snap.application.mixed_priority = mixed;
    snap
}

#[test]
fn saved_rules_are_attached_and_reapplied_until_settled() {
    let mut rules = SavedRules::new();
    rules.insert("exe:/usr/bin/app".to_owned(), 5);
    let mut snaps = vec![
        snapshot_of("exe:/usr/bin/app", 0, false),
        snapshot_of("exe:/usr/bin/other", 0, false),
        snapshot_of("exe:/usr/bin/app", 5, false),
        snapshot_of("exe:/usr/bin/app", 5, true),
    ];
    attach_saved_rules(&mut snaps, &rules);
    let saved: Vec<Option<i32>> = snaps.iter().map(|s| s.application.saved_nice).collect();
    assert_eq!(saved, vec![Some(5), None, Some(5), Some(5)]);
    let targets: Vec<Option<i32>> = snaps
        .iter()
        .map(|s| saved_priority_to_apply(&s.application))
        .collect();
    assert_eq!(targets, vec![Some(5), None, None, Some(5)]);

    let mut t = RefreshTally::new();
    let app = &mut snaps[0].application;
    t.record(app, 5, &result_of(1, 0, 0, 0));
    assert_eq!((app.nice, app.mixed_priority), (5, false));
    assert_eq!(saved_priority_to_apply(app), None);
    let app = &mut snaps[3].application;
    t.record(app, 5, &result_of(2, 0, 1, 0));
    assert!(app.mixed_priority);
    let app = &mut snaps[1].application;
    t.record(app, 5, &result_of(0, 0, 4, 0));
    assert_eq!((t.auto_changed, t.auto_apps, t.auto_denied), (3, 2, 5));
}

#[test]
fn marking_a_saved_priority_touches_only_its_rule() {
    let mut snap = snapshot_of("desktop:a", 0, false);
    mark_saved(&mut snap, "desktop:b", Some(3));
    assert_eq!(snap.application.saved_nice, None);
    mark_saved(&mut snap, "desktop:a", Some(3));
    assert_eq!(snap.application.saved_nice, Some(3));
    mark_saved(&mut snap, "desktop:a", None);
    assert_eq!(snap.application.saved_nice, None);
}

#[test]
fn members_are_taken_in_pid_order() {
    let members = vec![
        proc_of(2, 1, 1, "second", "/usr/bin/second", 0),
        proc_of(1, 1, 1, "first", "/usr/bin/first", 4),
    ];
    let key: Vec<char> = "scope:y".chars().collect();
    let snap = build_application(&key, &None, 0, &members, &Vec::new()).unwrap();
    assert_eq!(snap.application.pids, vec![1, 2]);
    assert_eq!(snap.application.main_pid, 1);
    assert_eq!(snap.application.name, "First");
    assert_eq!(snap.application.nice, 4);
    assert_eq!(snap.processes[0].pid, 1);
    assert_eq!(snap.processes[1].pid, 2);
}

#[test]
fn failure_and_forget_lines_name_the_application() {
    assert_eq!(
        missing_application_message(),
        "That application is no longer in the current process list"
    );
    assert_eq!(no_saved_priority_message("Editor"), "No saved priority for Editor");
    assert_eq!(forgot_priority_message("Editor"), "Forgot the saved priority for Editor");
    assert_eq!(
        forget_failed_message("Editor", "denied"),
        "Could not forget the priority for Editor: denied"
    );
    assert_eq!(
        save_failed_message("Editor", "denied"),
        "Could not save the priority for Editor: denied"
    );
    assert_eq!(
        autostart_failed_message("denied"),
        "Could not change the startup setting: denied"
    );
    assert_eq!(
        scan_failed_message("denied"),
        "Could not read running applications: denied"
    );
    assert_eq!(list_failed_message("bad"), "Could not prepare the process list: bad");
}

/// The friendly name std's `Path` would give, for comparison.
fn friendly_by_std(process_name: &str, executable: &str) -> String {
    let candidate = std::path::Path::new(executable)
        .file_name()
        .and_then(|name| name.to_str())
        .unwrap_or(process_name)
        .trim_end_matches(".bin")
        .replace(['-', '_'], " ");
    candidate
        .split_whitespace()
        .map(|word| {
            let mut chars = word.chars();
            match chars.next() {
                Some(first) => first.to_uppercase().collect::<String>() + chars.as_str(),
                None => String::new(),
            }
        })
        .collect::<Vec<_>>()
        .join(" ")
}

#[test]
fn file_names_follow_std_paths() {
    for path in [
        "/usr/bin/", "tmp/foo.txt", "foo.txt/.", "foo.txt/.//", "foo.txt/..", "/", "", ".",
        "./", "..", "a//b", "/a/./b/.", "./a", "a/..", "...", ".hidden", "//x", "/..", "a/./",
    ] {
        assert_eq!(friendly_name("zz", path), friendly_by_std("zz", path), "path {path:?}");
    }
}
