use application_priority_setter::autostart::{ensure_autostart_flags, is_enabled};
use application_priority_setter::desktop::parse_entry;
use application_priority_setter::process::{
    find_tree_root, friendly_name, parse_application_scope, parse_stat, Process, ProcessIdentity,
};
use application_priority_setter::rules::load;

fn test_process(pid: i32, parent_pid: i32, name: &str) -> Process {
    Process {
        identity: ProcessIdentity {
            pid,
            start_time: pid as u64,
        },
        parent_pid,
        uid: 1000,
        name: name.to_owned(),
        executable: format!("/usr/bin/{name}"),
        nice: 0,
        application_scope: None,
    }
}

#[test]
fn copied_entry_is_unhidden_and_flagged() {
    let fixed = ensure_autostart_flags("[Desktop Entry]\nHidden=true\nExec=foo\n");
    assert!(fixed.contains("Hidden=false"));
    assert!(!fixed.contains("Hidden=true"));
    assert!(fixed.contains("X-GNOME-Autostart-enabled=true"));
    // No duplicated flag when already present.
    let fixed = ensure_autostart_flags("[Desktop Entry]\nX-GNOME-Autostart-enabled=true\n");
    assert_eq!(fixed.matches("X-GNOME-Autostart-enabled=true").count(), 1);
}

#[test]
fn hidden_entry_counts_as_disabled() {
    assert!(!is_enabled(Some("[Desktop Entry]\nHidden=true\n")));
}

#[test]
fn parses_desktop_metadata() {
    let entry = parse_entry(
        "org.example.App",
        "[Desktop Entry]\nName=Example App\nExec=env FOO=1 /usr/bin/example-app %U\nIcon=example\nStartupWMClass=example-app\n",
    )
    .unwrap();

    assert_eq!(entry.name, "Example App");
    assert_eq!(entry.executable, "example-app");
    assert_eq!(entry.icon, "example");
}

#[test]
fn ignores_hidden_entries() {
    assert!(parse_entry("hidden", "[Desktop Entry]\nName=Hidden\nHidden=true\n").is_none());
}

#[test]
fn parses_names_with_spaces_and_parentheses() {
    let stat = "42 (name with ) paren) S 1 2 3 4 5 6 7 8 9 10 11 12 13 14 15 -5 17 18 12345";
    let stat = parse_stat(stat).unwrap();
    assert_eq!(stat.name, "name with ) paren");
    assert_eq!(stat.parent_pid, 1);
    assert_eq!(stat.nice, -5);
    assert_eq!(stat.start_time, 12345);
}

#[test]
fn parses_systemd_application_scopes() {
    let scope = parse_application_scope(
        "0::/user.slice/user-1000.slice/user@1000.service/app.slice/app-org.chromium.Chromium-2225278.scope\n",
    )
    .unwrap();

    assert_eq!(scope.key, "app-org.chromium.Chromium-2225278.scope");
    assert_eq!(scope.app_id, "org.chromium.Chromium");
}

#[test]
fn parses_flatpak_application_scopes() {
    let scope = parse_application_scope(
        "0::/user.slice/app.slice/app-flatpak-com.discordapp.Discord-123.scope\n",
    )
    .unwrap();

    assert_eq!(scope.app_id, "com.discordapp.Discord");
}

#[test]
fn formats_executable_names() {
    assert_eq!(friendly_name("ignored", "/usr/bin/my-cool_app"), "My Cool App");
}

#[test]
fn groups_descendants_under_the_first_process_after_a_launch_boundary() {
    let processes = vec![
        test_process(10, 1, "bash"),
        test_process(20, 10, "example-app"),
        test_process(21, 20, "example-helper"),
        test_process(22, 21, "example-renderer"),
    ];

    assert_eq!(find_tree_root(20, &processes), 20);
    assert_eq!(find_tree_root(21, &processes), 20);
    assert_eq!(find_tree_root(22, &processes), 20);
}

#[test]
fn missing_file_loads_empty() {
    assert!(load(None, None).is_empty());
}
