use application_priority_setter::autostart::{
    autostart_dir, autostart_path, entry_contents, ensure_autostart_flags, is_enabled,
    is_installed_entry, set_enabled, system_application_dirs, AutostartChange,
};
use application_priority_setter::desktop::{
    application_directories, entries_from_files, find, normalize, parse_entry, DesktopEntry,
};
use application_priority_setter::text::chars_of;

fn entry(id: &str, executable: &str, startup_class: &str) -> DesktopEntry {
    DesktopEntry {
        id: id.to_owned(),
        name: format!("{id} name"),
        icon: format!("{id}-icon"),
        executable: executable.to_owned(),
        startup_class: startup_class.to_owned(),
    }
}

#[test]
fn identifiers_are_normalized() {
    let n = |s: &str| normalize(&chars_of(s)).iter().collect::<String>();
    assert_eq!(n("app-flatpak-Org.Foo\\x2dBar.desktop.desktop"), "org.foo-bar");
    assert_eq!(n("app-app-x"), "x");
    assert_eq!(n("Firefox"), "firefox");
}

#[test]
fn application_id_match_wins_over_other_matches() {
    let entries = vec![
        entry("org.example.Editor", "example", "example"),
        entry("org.example.App", "other", "other"),
        entry("example", "x", "y"),
    ];
    let found = find(&entries, Some("app-org.example.App"), "/usr/bin/example", "example").unwrap();
    assert_eq!(found.id, "org.example.App");
}

#[test]
fn find_ranks_executable_then_id_then_window_class() {
    let entries = vec![
        entry("org.example.Viewer", "viewer", "Example"),
        entry("tool", "ignored", "ignored"),
        entry("org.example.Example", "nope", "nope"),
    ];
    // Id tail beats window class.
    let found = find(&entries, None, "/usr/bin/example", "example").unwrap();
    assert_eq!(found.id, "org.example.Example");
    // Executable name beats everything but the application id.
    let found = find(&entries, None, "/opt/VIEWER", "whatever").unwrap();
    assert_eq!(found.id, "org.example.Viewer");
    // Window class alone.
    let found = find(&entries, None, "", "example").unwrap();
    assert_eq!(found.id, "org.example.Example");
    assert!(find(&entries, None, "/usr/bin/none", "none").is_none());
}

#[test]
fn equally_good_matches_pick_the_last() {
    let entries = vec![entry("a", "prog", "x"), entry("b", "PROG", "y")];
    assert_eq!(find(&entries, None, "/bin/prog", "p").unwrap().id, "b");
}

#[test]
fn exec_lines_name_their_program() {
    let exe = |line: &str| {
        parse_entry("x", &format!("[Desktop Entry]\nName=X\nExec={line}\n"))
            .unwrap()
            .executable
    };
    assert_eq!(exe("'/opt/My-App/Run' %F"), "run");
    assert_eq!(exe("env -u X A=1 %u /usr/bin/Tool"), "x");
    assert_eq!(exe("env -i A=1 %u /usr/bin/Tool"), "tool");
    assert_eq!(exe("%U"), "");
    assert_eq!(exe(""), "");
}

#[test]
fn only_the_desktop_entry_group_counts() {
    let parsed = parse_entry(
        "id",
        "Name=Outside\n[Other]\nName=Other\n[Desktop Entry]\n# Name=Comment\nName = Spaced\nName=Real\nIcon= icon \nnoequals\n[Desktop Action x]\nName=Action\n",
    )
    .unwrap();
    assert_eq!(parsed.name, "Real");
    assert_eq!(parsed.icon, "icon");
    assert!(parse_entry("id", "[Desktop Entry]\nIcon=x\n").is_none());
    assert!(parse_entry("id", "[Desktop Entry]\nName=A\nHidden=TRUE\n").is_none());
}

#[test]
fn loader_skips_repeated_identifiers() {
    let files = vec![
        ("Editor".to_owned(), None),
        ("editor".to_owned(), Some("[Desktop Entry]\nName=Second\n".to_owned())),
        ("viewer".to_owned(), Some("[Desktop Entry]\nName=Viewer\n".to_owned())),
        ("hidden".to_owned(), Some("[Desktop Entry]\nName=H\nHidden=true\n".to_owned())),
        ("VIEWER".to_owned(), Some("[Desktop Entry]\nName=Again\n".to_owned())),
    ];
    let entries = entries_from_files(&files);
    assert_eq!(entries.len(), 1);
    assert_eq!(entries[0].name, "Viewer");
}

#[test]
fn application_directories_follow_the_environment() {
    let dirs = application_directories(None, Some("/home/u"), None);
    assert_eq!(
        dirs,
        vec![
            "/home/u/.local/share/applications",
            "/usr/local/share/applications",
            "/usr/share/applications",
            "/home/u/.local/share/flatpak/exports/share/applications",
            "/var/lib/flatpak/exports/share/applications",
        ]
    );
    let data_dirs = vec!["/usr/share".to_owned(), "/usr/share/".to_owned(), "/opt".to_owned()];
    let dirs = application_directories(Some("/data"), None, Some(&data_dirs));
    assert_eq!(
        dirs,
        vec![
            "/data/applications",
            "/usr/share/applications",
            "/opt/applications",
            "/var/lib/flatpak/exports/share/applications",
        ]
    );
}

#[test]
fn autostart_location_follows_the_environment() {
    assert_eq!(autostart_dir(Some("/cfg"), Some("/home/u")), "/cfg/autostart");
    assert_eq!(autostart_dir(None, Some("/home/u")), "/home/u/.config/autostart");
    assert_eq!(autostart_dir(None, None), ".config/autostart");
    assert_eq!(
        autostart_path(None, Some("/home/u")),
        "/home/u/.config/autostart/io.github.applicationprioritysetter.desktop"
    );
}

#[test]
fn enable_disable_round_trip() {
    assert!(!is_enabled(None));
    assert_eq!(set_enabled(false), AutostartChange::Remove);
    assert_eq!(set_enabled(true), AutostartChange::Write);
    let contents = entry_contents(None, "/usr/bin/application-priority-setter");
    assert!(is_enabled(Some(&contents)));
    assert!(contents.contains("[Desktop Entry]"));
    assert!(contents.contains("X-GNOME-Autostart-enabled=true"));
    assert!(contents.contains("\nExec=/usr/bin/application-priority-setter\n"));
    let copied = entry_contents(Some("[Desktop Entry]\nName=X\nHidden=true"), "unused");
    assert_eq!(copied, "[Desktop Entry]\nName=X\nHidden=false\nX-GNOME-Autostart-enabled=true\n");
    assert!(is_enabled(Some(&copied)));
}

#[test]
fn switched_off_entries_count_as_disabled() {
    assert!(!is_enabled(Some("[Desktop Entry]\n  x-gnome-autostart-enabled=FALSE \n")));
    assert!(is_enabled(Some("[Desktop Entry]\nHidden=false\n")));
    assert!(is_enabled(Some("")));
}

#[test]
fn flags_are_added_to_entries_without_them() {
    assert_eq!(ensure_autostart_flags(""), "\nX-GNOME-Autostart-enabled=true\n");
    assert_eq!(
        ensure_autostart_flags("a\r\n b "),
        "a\n b \nX-GNOME-Autostart-enabled=true\n"
    );
    assert!(is_installed_entry("x\n[Desktop Entry]\n"));
    assert!(!is_installed_entry("[Desktop entry]"));
}

#[test]
fn installed_entry_directories_follow_the_environment() {
    assert_eq!(
        system_application_dirs(Some("/h"), None),
        vec![
            "/h/.local/share/applications",
            "/h/.local/share/flatpak/exports/share/applications",
            "/usr/local/share/applications",
            "/usr/share/applications",
            "/var/lib/flatpak/exports/share/applications",
        ]
    );
    let data_dirs = vec!["/x".to_owned()];
    assert_eq!(
        system_application_dirs(None, Some(&data_dirs)),
        vec!["/x/applications", "/var/lib/flatpak/exports/share/applications"]
    );
}

#[test]
fn switched_off_installed_entries_are_switched_on_when_copied() {
    let installed = "[Desktop Entry]\nName=X\n  X-GNOME-Autostart-enabled=False\n";
    let copied = entry_contents(Some(installed), "unused");
    assert_eq!(copied, "[Desktop Entry]\nName=X\nX-GNOME-Autostart-enabled=true\n");
    assert!(is_enabled(Some(&copied)));
    assert!(!copied.contains("enabled=False"));
}

#[test]
fn flagging_twice_is_flagging_once() {
    for contents in [
        "",
        "[Desktop Entry]\nHidden=true\nExec=foo",
        "[Desktop Entry]\nX-GNOME-Autostart-enabled=false\n",
        "a\r\n b \n",
    ] {
        let once = ensure_autostart_flags(contents);
        assert_eq!(ensure_autostart_flags(&once), once);
    }
}

#[test]
fn duplicate_directories_follow_std_path_equality() {
    let data_dirs: Vec<String> = [
        "/usr/share", "/usr//share/", "/usr/./share", "usr/share", "./usr/share", "/usr/share/..",
        "/usr/share/../", ".", "./", "", "/./usr/share",
    ]
    .iter()
    .map(|d| d.to_string())
    .collect();
    let dirs = application_directories(Some("/d"), None, Some(&data_dirs));
    let mut expected: Vec<std::path::PathBuf> = Vec::new();
    let mut all = vec![std::path::PathBuf::from("/d").join("applications")];
    all.extend(data_dirs.iter().map(|d| std::path::PathBuf::from(d).join("applications")));
    all.push(std::path::PathBuf::from("/var/lib/flatpak/exports/share/applications"));
    for d in all {
        if !expected.contains(&d) {
            expected.push(d);
        }
    }
    let expected: Vec<String> = expected.iter().map(|p| p.display().to_string()).collect();
    assert_eq!(dirs, expected);
}

#[test]
fn generated_entries_with_line_feeds_read_by_their_lines() {
    let contents = entry_contents(None, "/opt/a\nb");
    assert!(contents.starts_with("[Desktop Entry]\n"));
    assert!(contents.ends_with("X-GNOME-Autostart-enabled=true\n"));
    assert!(is_enabled(Some(&contents)));
    let contents = entry_contents(None, "/opt/a\n hidden=TRUE");
    assert!(!is_enabled(Some(&contents)));
}
