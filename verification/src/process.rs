//! Processes as read from `/proc`: parsing their `stat`, `status` and
//! `cgroup` files, naming them, and grouping them into applications.
use vstd::prelude::*;

use crate::text::{
    all_digits, chars_of, decimal, ends_with, file_name, find_char, first_char, has_prefix,
    has_suffix, last_char, lemma_find_char_from, lemma_rfind_char_before, lines,
    lines_of, lowercase, parse_i32, parse_i32_spec, parse_u32, parse_u32_spec, parse_u64,
    parse_u64_spec, path_file_name, pieces, push_all, push_str, replace, replaced, rfind_char, slice,
    split_at_first, split_on, split_once, starts_with, string_of, strip_leading, strip_trailing,
    to_lowercase, to_uppercase_char, trim_end_matches, trim_start_matches, uppercase_char, views,
    words, words_of,
};

verus! {

broadcast use vstd::string::group_string_axioms;

/// A process, identified by its PID together with its start time so that a
/// reused PID is not mistaken for the process it replaced.
#[derive(Clone, Copy, Debug, PartialEq, Eq)]
pub struct ProcessIdentity {
    pub pid: i32,
    pub start_time: u64,
}

/// The fields of `/proc/<pid>/stat` that the library uses.
pub struct ProcessStat {
    pub name: String,
    pub parent_pid: i32,
    pub nice: i32,
    pub start_time: u64,
}

/// `ProcessStat` as characters and numbers.
pub struct ProcessStatView {
    pub name: Seq<char>,
    pub parent_pid: i32,
    pub nice: i32,
    pub start_time: u64,
}

impl View for ProcessStat {
    type V = ProcessStatView;

    open spec fn view(&self) -> ProcessStatView {
        ProcessStatView {
            name: self.name@,
            parent_pid: self.parent_pid,
            nice: self.nice,
            start_time: self.start_time,
        }
    }
}

// ---------------------------------------------------------------------------
// /proc/<pid>/stat
// ---------------------------------------------------------------------------

/// Whether the last `)` of a stat line does not come before its first `(`
/// (the command name between them may itself hold parentheses).
pub open spec fn stat_brackets_ordered(stat: Seq<char>) -> bool {
    match (find_char(stat, '('), rfind_char(stat, ')')) {
        (Some(open), Some(close)) => open <= close,
        _ => true,
    }
}

/// The whitespace-separated field `index` of `fields`, parsed by `parse`.
pub open spec fn field_i32(fields: Seq<Seq<char>>, index: int) -> Option<i32> {
    if 0 <= index < fields.len() {
        parse_i32_spec(fields[index])
    } else {
        None
    }
}

/// The whitespace-separated field `index` of `fields`, parsed as `u64`.
pub open spec fn field_u64(fields: Seq<Seq<char>>, index: int) -> Option<u64> {
    if 0 <= index < fields.len() {
        parse_u64_spec(fields[index])
    } else {
        None
    }
}

/// A `/proc/<pid>/stat` line read: the command name lies between the first
/// `(` and the last `)`; after that `)`, field 1 is the parent PID, field 16
/// the nice value and field 19 the start time (fields counted from 0 after
/// the state letter's predecessor, as split on white space).
pub open spec fn parsed_stat(stat: Seq<char>) -> Option<ProcessStatView> {
    match (find_char(stat, '('), rfind_char(stat, ')')) {
        (Some(open), Some(close)) => {
            let fields = words(stat.skip(close + 1));
            match (field_i32(fields, 1), field_i32(fields, 16), field_u64(fields, 19)) {
                (Some(parent_pid), Some(nice), Some(start_time)) => Some(
                    ProcessStatView {
                        name: stat.subrange(open + 1, close),
                        parent_pid,
                        nice,
                        start_time,
                    },
                ),
                _ => None,
            }
        },
        _ => None,
    }
}

/// Whether a stat line's brackets are in order (see `stat_brackets_ordered`);
/// `parse_stat` needs them to be.
pub fn stat_brackets_in_order(stat: &str) -> (r: bool)
    ensures
        r == stat_brackets_ordered(stat@),
{
    let s = chars_of(stat);
    match (first_char(&s, '('), last_char(&s, ')')) {
        (Some(open), Some(close)) => open <= close,
        _ => true,
    }
}

fn field_i32_at(fields: &Vec<Vec<char>>, index: usize) -> (r: Option<i32>)
    ensures
        r == field_i32(views(fields@), index as int),
{
    if index < fields.len() {
        assert(views(fields@)[index as int] == fields@[index as int]@);
        parse_i32(&fields[index])
    } else {
        None
    }
}

fn field_u64_at(fields: &Vec<Vec<char>>, index: usize) -> (r: Option<u64>)
    ensures
        r == field_u64(views(fields@), index as int),
{
    if index < fields.len() {
        assert(views(fields@)[index as int] == fields@[index as int]@);
        parse_u64(&fields[index])
    } else {
        None
    }
}

/// Parses a `/proc/<pid>/stat` line (see `parsed_stat`).
pub fn parse_stat(stat: &str) -> (r: Option<ProcessStat>)
    requires
        stat_brackets_ordered(stat@),
    ensures
        r matches Some(st) ==> parsed_stat(stat@) == Some(st@),
        r is None ==> parsed_stat(stat@) is None,
{
    let s = chars_of(stat);
    let open = match first_char(&s, '(') {
        Some(i) => i,
        None => {
            return None;
        },
    };
    let close = match last_char(&s, ')') {
        Some(i) => i,
        None => {
            return None;
        },
    };
    proof {
        lemma_find_char_from(s@, '(', 0);
        lemma_rfind_char_before(s@, ')', s@.len() as int);
    }
    let rest = slice(&s, close + 1, s.len());
    assert(rest@ =~= s@.skip(close + 1));
    let fields = words_of(&rest);
    let name = slice(&s, open + 1, close);
    let parent_pid = match field_i32_at(&fields, 1) {
        Some(v) => v,
        None => {
            return None;
        },
    };
    let nice = match field_i32_at(&fields, 16) {
        Some(v) => v,
        None => {
            return None;
        },
    };
    let start_time = match field_u64_at(&fields, 19) {
        Some(v) => v,
        None => {
            return None;
        },
    };
    Some(ProcessStat { name: string_of(&name), parent_pid, nice, start_time })
}

// ---------------------------------------------------------------------------
// /proc/<pid>/status
// ---------------------------------------------------------------------------

/// What follows `Uid:` on the first line of `lines` (from index `i` on) that
/// starts with it.
pub open spec fn uid_line_from(ls: Seq<Seq<char>>, i: int) -> Option<Seq<char>>
    decreases ls.len() - i,
{
    if i < 0 || i >= ls.len() {
        None
    } else if starts_with(ls[i], "Uid:"@) {
        Some(ls[i].skip(4))
    } else {
        uid_line_from(ls, i + 1)
    }
}

/// The user id in column `column` of the first `Uid:` line of a
/// `/proc/<pid>/status` file (column 0 is the real, 1 the effective id).
pub open spec fn status_uid_spec(status: Seq<char>, column: int) -> Option<u32> {
    match uid_line_from(lines(status), 0) {
        Some(rest) => {
            let fields = words(rest);
            if 0 <= column < fields.len() {
                parse_u32_spec(fields[column])
            } else {
                None
            }
        },
        None => None,
    }
}

/// Reads a user id from a `/proc/<pid>/status` file (see `status_uid_spec`).
pub fn status_uid(status: &str, column: usize) -> (r: Option<u32>)
    ensures
        r == status_uid_spec(status@, column as int),
{
    let text = chars_of(status);
    let ls = lines_of(&text);
    let prefix = chars_of("Uid:");
    assert(prefix@.len() == 4) by {
        reveal_strlit("Uid:");
    }
    let mut i: usize = 0;
    while i < ls.len()
        invariant
            i <= ls.len(),
            views(ls@) == lines(text@),
            text@ == status@,
            prefix@ == "Uid:"@,
            prefix@.len() == 4,
            uid_line_from(lines(status@), 0) == uid_line_from(views(ls@), i as int),
        decreases ls.len() - i,
    {
        assert(views(ls@)[i as int] == ls@[i as int]@);
        if has_prefix(&ls[i], &prefix) {
            let rest = slice(&ls[i], 4, ls[i].len());
            assert(rest@ =~= ls@[i as int]@.skip(4));
            let fields = words_of(&rest);
            if column < fields.len() {
                assert(views(fields@)[column as int] == fields@[column as int]@);
                return parse_u32(&fields[column]);
            } else {
                return None;
            }
        }
        i += 1;
    }
    None
}

/// The effective user id in a `/proc/self/status` file.
pub fn effective_uid(status: &str) -> (r: Option<u32>)
    ensures
        r == status_uid_spec(status@, 1),
{
    status_uid(status, 1)
}

// ---------------------------------------------------------------------------
// /proc/<pid>/cgroup
// ---------------------------------------------------------------------------

/// The systemd application scope a process runs in: the scope unit's name
/// and the application id derived from it.
pub struct ApplicationScope {
    pub key: String,
    pub app_id: String,
}

impl View for ApplicationScope {
    type V = (Seq<char>, Seq<char>);

    open spec fn view(&self) -> (Seq<char>, Seq<char>) {
        (self.key@, self.app_id@)
    }
}

/// Whether a cgroup path component names an application scope unit.
pub open spec fn is_scope_unit(component: Seq<char>) -> bool {
    starts_with(component, "app-"@) && ends_with(component, ".scope"@)
}

/// The first application scope unit among `parts`, from index `i` on.
pub open spec fn first_scope_unit(parts: Seq<Seq<char>>, i: int) -> Option<Seq<char>>
    decreases parts.len() - i,
{
    if i < 0 || i >= parts.len() {
        None
    } else if is_scope_unit(parts[i]) {
        Some(parts[i])
    } else {
        first_scope_unit(parts, i + 1)
    }
}

/// The first application scope unit in the paths (after `::`) of the cgroup
/// lines from index `i` on.
pub open spec fn scope_unit_in_lines(ls: Seq<Seq<char>>, i: int) -> Option<Seq<char>>
    decreases ls.len() - i,
{
    if i < 0 || i >= ls.len() {
        None
    } else {
        match split_once(ls[i], "::"@) {
            Some((_, path)) => match first_scope_unit(pieces(path, '/'), 0) {
                Some(unit) => Some(unit),
                None => scope_unit_in_lines(ls, i + 1),
            },
            None => scope_unit_in_lines(ls, i + 1),
        }
    }
}

/// The application id of a scope unit `app-<id>[-<digits>].scope`: the unit
/// name without its `app-` prefixes and `.scope` suffixes, without a trailing
/// `-<digits>` instance number, without leading `flatpak-`, and with the
/// systemd escape `\x2d` turned back into `-`.
pub open spec fn scope_app_id(unit: Seq<char>) -> Seq<char> {
    let body = trim_end_matches(trim_start_matches(unit, "app-"@), ".scope"@);
    let base = match rfind_char(body, '-') {
        Some(i) => if all_digits(body.skip(i + 1)) {
            body.take(i)
        } else {
            body
        },
        None => body,
    };
    replace(trim_start_matches(base, "flatpak-"@), "\\x2d"@, "-"@)
}

/// The application scope named in a `/proc/<pid>/cgroup` file, if any.
pub open spec fn parsed_scope(cgroup: Seq<char>) -> Option<(Seq<char>, Seq<char>)> {
    match scope_unit_in_lines(lines(cgroup), 0) {
        Some(unit) => Some((unit, scope_app_id(unit))),
        None => None,
    }
}

fn scope_unit_among(parts: &Vec<Vec<char>>, prefix: &Vec<char>, suffix: &Vec<char>) -> (r: Option<Vec<char>>)
    requires
        prefix@ == "app-"@,
        suffix@ == ".scope"@,
    ensures
        r matches Some(u) ==> first_scope_unit(views(parts@), 0) == Some(u@),
        r is None ==> first_scope_unit(views(parts@), 0) is None,
{
    let mut i: usize = 0;
    while i < parts.len()
        invariant
            i <= parts.len(),
            prefix@ == "app-"@,
            suffix@ == ".scope"@,
            first_scope_unit(views(parts@), 0) == first_scope_unit(views(parts@), i as int),
        decreases parts.len() - i,
    {
        assert(views(parts@)[i as int] == parts@[i as int]@);
        if has_prefix(&parts[i], prefix) && has_suffix(&parts[i], suffix) {
            return Some(parts[i].clone());
        }
        i += 1;
    }
    None
}

fn app_id_of_unit(unit: &Vec<char>) -> (r: Vec<char>)
    ensures
        r@ == scope_app_id(unit@),
{
    let a = strip_leading(unit, &chars_of("app-"));
    let body = strip_trailing(&a, &chars_of(".scope"));
    let base = match last_char(&body, '-') {
        Some(i) => {
            proof {
                lemma_rfind_char_before(body@, '-', body@.len() as int);
            }
            assert(i < body.len());
            let mut digits = true;
            let mut k = i + 1;
            while k < body.len()
                invariant
                    i + 1 <= k <= body.len(),
                    digits == all_digits(body@.subrange(i + 1, k as int)),
                decreases body.len() - k,
            {
                let c = body[k];
                assert(body@.subrange(i + 1, k + 1) =~= body@.subrange(i + 1, k as int).push(c));
                proof {
                    crate::text::lemma_all_digits_push(body@.subrange(i + 1, k as int), c);
                }
                digits = digits && '0' <= c && c <= '9';
                k += 1;
            }
            assert(body@.subrange(i + 1, k as int) =~= body@.skip(i + 1));
            if digits {
                let t = slice(&body, 0, i);
                assert(t@ =~= body@.take(i as int));
                t
            } else {
                body
            }
        },
        None => body,
    };
    let c = strip_leading(&base, &chars_of("flatpak-"));
    replaced(&c, &chars_of("\\x2d"), &chars_of("-"))
}

/// Finds the systemd application scope in a `/proc/<pid>/cgroup` file.
pub fn parse_application_scope(cgroup: &str) -> (r: Option<ApplicationScope>)
    ensures
        r matches Some(sc) ==> parsed_scope(cgroup@) == Some(sc@),
        r is None ==> parsed_scope(cgroup@) is None,
{
    let text = chars_of(cgroup);
    let ls = lines_of(&text);
    let separator = chars_of("::");
    let prefix = chars_of("app-");
    let suffix = chars_of(".scope");
    let mut i: usize = 0;
    while i < ls.len()
        invariant
            i <= ls.len(),
            views(ls@) == lines(cgroup@),
            separator@ == "::"@,
            prefix@ == "app-"@,
            suffix@ == ".scope"@,
            scope_unit_in_lines(lines(cgroup@), 0) == scope_unit_in_lines(views(ls@), i as int),
        decreases ls.len() - i,
    {
        assert(views(ls@)[i as int] == ls@[i as int]@);
        match split_at_first(&ls[i], &separator) {
            Some((_, path)) => {
                let parts = split_on(&path, '/');
                match scope_unit_among(&parts, &prefix, &suffix) {
                    Some(unit) => {
                        let app_id = app_id_of_unit(&unit);
                        return Some(
                            ApplicationScope { key: string_of(&unit), app_id: string_of(&app_id) },
                        );
                    },
                    None => {},
                }
            },
            None => {},
        }
        i += 1;
    }
    None
}

// ---------------------------------------------------------------------------
// Processes.
// ---------------------------------------------------------------------------

/// A process of the current user, as read from `/proc/<pid>`.
pub struct Process {
    pub identity: ProcessIdentity,
    pub parent_pid: i32,
    pub uid: u32,
    pub name: String,
    pub executable: String,
    pub nice: i32,
    pub application_scope: Option<ApplicationScope>,
}

/// A process as numbers and characters.
pub struct ProcessView {
    pub identity: ProcessIdentity,
    pub parent_pid: i32,
    pub uid: u32,
    pub name: Seq<char>,
    pub executable: Seq<char>,
    pub nice: i32,
    pub scope: Option<(Seq<char>, Seq<char>)>,
}

impl View for Process {
    type V = ProcessView;

    open spec fn view(&self) -> ProcessView {
        ProcessView {
            identity: self.identity,
            parent_pid: self.parent_pid,
            uid: self.uid,
            name: self.name@,
            executable: self.executable@,
            nice: self.nice,
            scope: match self.application_scope {
                Some(sc) => Some(sc@),
                None => None,
            },
        }
    }
}

/// Copies a process field by field.
pub fn copy_process(p: &Process) -> (r: Process)
    ensures
        r@ == p@,
{
    Process {
        identity: p.identity,
        parent_pid: p.parent_pid,
        uid: p.uid,
        name: p.name.clone(),
        executable: p.executable.clone(),
        nice: p.nice,
        application_scope: match &p.application_scope {
            Some(sc) => Some(ApplicationScope { key: sc.key.clone(), app_id: sc.app_id.clone() }),
            None => None,
        },
    }
}

/// The process described by the files of `/proc/<pid>`: its `status` (for
/// the real user id), its `stat`, the target of its `exe` link (empty when
/// unreadable) and its `cgroup` file (`None` when unreadable); `None` when
/// the user id or the stat line cannot be read.
pub open spec fn process_from_parts(
    pid: i32,
    status: Seq<char>,
    stat: Seq<char>,
    executable: Seq<char>,
    cgroup: Option<Seq<char>>,
) -> Option<ProcessView> {
    match (status_uid_spec(status, 0), parsed_stat(stat)) {
        (Some(uid), Some(st)) => Some(
            ProcessView {
                identity: ProcessIdentity { pid, start_time: st.start_time },
                parent_pid: st.parent_pid,
                uid,
                name: st.name,
                executable,
                nice: st.nice,
                scope: match cgroup {
                    Some(c) => parsed_scope(c),
                    None => None,
                },
            },
        ),
        _ => None,
    }
}

/// Builds a process from the files of `/proc/<pid>` (see `process_from_parts`).
pub fn process_from_proc(
    pid: i32,
    status: &str,
    stat: &str,
    executable: String,
    cgroup: Option<&str>,
) -> (r: Option<Process>)
    requires
        status_uid_spec(status@, 0) is None || stat_brackets_ordered(stat@),
    ensures
        r matches Some(p) ==> process_from_parts(pid, status@, stat@, executable@, cgroup.deep_view())
            == Some(p@),
        r is None ==> process_from_parts(pid, status@, stat@, executable@, cgroup.deep_view()) is None,
{
    let uid = match status_uid(status, 0) {
        Some(u) => u,
        None => {
            return None;
        },
    };
    let st = match parse_stat(stat) {
        Some(s) => s,
        None => {
            return None;
        },
    };
    let application_scope = match cgroup {
        Some(c) => parse_application_scope(c),
        None => None,
    };
    Some(
        Process {
            identity: ProcessIdentity { pid, start_time: st.start_time },
            parent_pid: st.parent_pid,
            uid,
            name: st.name,
            executable,
            nice: st.nice,
            application_scope,
        },
    )
}

// ---------------------------------------------------------------------------
// Names.
// ---------------------------------------------------------------------------

/// `s` with every `-` and `_` turned into a space.
pub open spec fn dashes_to_spaces(s: Seq<char>) -> Seq<char> {
    s.map_values(|c: char| if c == '-' || c == '_' { ' ' } else { c })
}

/// A word with its first character uppercased.
pub open spec fn capitalized(word: Seq<char>) -> Seq<char> {
    if word.len() == 0 {
        Seq::empty()
    } else {
        uppercase_char(word[0]) + word.skip(1)
    }
}

/// The words joined by single spaces.
pub open spec fn space_joined(ws: Seq<Seq<char>>) -> Seq<char>
    decreases ws.len(),
{
    if ws.len() == 0 {
        Seq::empty()
    } else if ws.len() == 1 {
        ws[0]
    } else {
        space_joined(ws.drop_last()) + seq![' '] + ws.last()
    }
}

/// A display name made from a program's file name (or its process name when
/// the path has none): without trailing `.bin`, with `-` and `_` as spaces,
/// each word capitalized, words separated by one space.
pub open spec fn friendly(process_name: Seq<char>, executable: Seq<char>) -> Seq<char> {
    let base = match path_file_name(executable) {
        Some(n) => n,
        None => process_name,
    };
    space_joined(
        words(dashes_to_spaces(trim_end_matches(base, ".bin"@))).map_values(
            |w: Seq<char>| capitalized(w),
        ),
    )
}

/// A display name for a program without a desktop entry (see `friendly`).
pub fn friendly_name(process_name: &str, executable: &str) -> (r: String)
    ensures
        r@ == friendly(process_name@, executable@),
{
    let base = match file_name(&chars_of(executable)) {
        Some(n) => n,
        None => chars_of(process_name),
    };
    let trimmed = strip_trailing(&base, &chars_of(".bin"));
    let mut spaced: Vec<char> = Vec::new();
    let mut i: usize = 0;
    while i < trimmed.len()
        invariant
            i <= trimmed.len(),
            spaced@ == dashes_to_spaces(trimmed@.take(i as int)),
        decreases trimmed.len() - i,
    {
        let c = trimmed[i];
        spaced.push(if c == '-' || c == '_' { ' ' } else { c });
        assert(spaced@ =~= dashes_to_spaces(trimmed@.take(i + 1)));
        i += 1;
    }
    assert(trimmed@.take(i as int) =~= trimmed@);
    let ws = words_of(&spaced);
    let ghost caps = words(spaced@).map_values(|w: Seq<char>| capitalized(w));
    let mut out: Vec<char> = Vec::new();
    let mut k: usize = 0;
    while k < ws.len()
        invariant
            k <= ws.len(),
            views(ws@) == words(spaced@),
            caps == words(spaced@).map_values(|w: Seq<char>| capitalized(w)),
            caps.len() == ws.len(),
            out@ == space_joined(caps.take(k as int)),
        decreases ws.len() - k,
    {
        assert(views(ws@)[k as int] == ws@[k as int]@);
        let w = &ws[k];
        let mut cap: Vec<char> = Vec::new();
        if w.len() > 0 {
            cap = to_uppercase_char(w[0]);
            let rest = slice(w, 1, w.len());
            push_all(&mut cap, &rest);
            assert(rest@ =~= w@.skip(1));
        }
        assert(cap@ == caps[k as int]);
        assert(caps.take(k + 1).drop_last() =~= caps.take(k as int));
        if k > 0 {
            out.push(' ');
        }
        push_all(&mut out, &cap);
        proof {
            if k == 0 {
                assert(out@ =~= space_joined(caps.take(k + 1)));
            } else {
                assert(out@ =~= space_joined(caps.take(k + 1)));
            }
        }
        k += 1;
    }
    assert(caps.take(k as int) =~= caps);
    string_of(&out)
}

/// The programs at which the walk up the process tree stops: shells,
/// terminals, session and privilege tools and desktop services.
pub open spec fn launch_boundary_names() -> Seq<Seq<char>> {
    seq![
        "systemd"@, "init"@, "bash"@, "dash"@, "fish"@, "sh"@, "zsh"@, "sudo"@, "doas"@,
        "pkexec"@, "sshd"@, "konsole"@, "konsole-bin"@, "kitty"@, "alacritty"@, "wezterm"@,
        "gnome-terminal-server"@, "kgx"@, "ptyxis"@, "codex"@, "hyprland"@, "uwsm"@,
        "plasmashell"@, "dbus-broker"@, "xdg-desktop-portal"@, "xdg-desktop-portal-kde"@,
        "xdg-desktop-portal-gtk"@,
    ]
}

/// Whether a process is a launcher (see `launch_boundary_names`), judged by
/// its lowercased executable file name, or its name when the path has none.
pub open spec fn is_boundary(p: ProcessView) -> bool {
    launch_boundary_names().contains(
        lowercase(
            match path_file_name(p.executable) {
                Some(n) => n,
                None => p.name,
            },
        ),
    )
}

/// Whether a process is a launcher (see `is_boundary`).
pub fn is_launch_boundary(process: &Process) -> (r: bool)
    ensures
        r == is_boundary(process@),
{
    let base = match file_name(&chars_of(&process.executable)) {
        Some(n) => n,
        None => chars_of(&process.name),
    };
    let name = to_lowercase(&base);
    assert(name@ == lowercase(
        match path_file_name(process@.executable) {
            Some(n) => n,
            None => process@.name,
        },
    ));
    let names: Vec<Vec<char>> = vec![
        chars_of("systemd"), chars_of("init"), chars_of("bash"), chars_of("dash"),
        chars_of("fish"), chars_of("sh"), chars_of("zsh"), chars_of("sudo"), chars_of("doas"),
        chars_of("pkexec"), chars_of("sshd"), chars_of("konsole"), chars_of("konsole-bin"),
        chars_of("kitty"), chars_of("alacritty"), chars_of("wezterm"),
        chars_of("gnome-terminal-server"), chars_of("kgx"), chars_of("ptyxis"), chars_of("codex"),
        chars_of("hyprland"), chars_of("uwsm"), chars_of("plasmashell"), chars_of("dbus-broker"),
        chars_of("xdg-desktop-portal"), chars_of("xdg-desktop-portal-kde"),
        chars_of("xdg-desktop-portal-gtk"),
    ];
    assert(views(names@) =~= launch_boundary_names());
    let mut i: usize = 0;
    while i < names.len()
        invariant
            i <= names.len(),
            views(names@) == launch_boundary_names(),
            is_boundary(process@) == launch_boundary_names().contains(name@),
            forall|k: int| 0 <= k < i ==> names@[k]@ != name@,
        decreases names.len() - i,
    {
        if crate::text::same_chars(&names[i], &name) {
            assert(views(names@)[i as int] == name@);
            assert(launch_boundary_names()[i as int] == name@);
            assert(launch_boundary_names().contains(name@));
            return true;
        }
        i += 1;
    }
    assert forall|k: int| 0 <= k < views(names@).len() implies views(names@)[k] != name@ by {
        assert(views(names@)[k] == names@[k]@);
    }
    false
}

// ---------------------------------------------------------------------------
// The process table and the process tree.
// ---------------------------------------------------------------------------

/// The views of a sequence of processes.
pub open spec fn process_views(v: Seq<Process>) -> Seq<ProcessView> {
    v.map_values(|p: Process| p@)
}

/// The first index at or after `i` of the process with PID `pid`.
pub open spec fn index_of_pid_from(t: Seq<ProcessView>, pid: i32, i: int) -> Option<int>
    decreases t.len() - i,
{
    if i < 0 || i >= t.len() {
        None
    } else if t[i].identity.pid == pid {
        Some(i)
    } else {
        index_of_pid_from(t, pid, i + 1)
    }
}

/// The index of the process with PID `pid`.
pub open spec fn index_of_pid(t: Seq<ProcessView>, pid: i32) -> Option<int> {
    index_of_pid_from(t, pid, 0)
}

/// Lemma: a found index holds that PID, and a missing PID is nowhere.
pub proof fn lemma_index_of_pid_from(t: Seq<ProcessView>, pid: i32, i: int)
    requires
        0 <= i,
    ensures
        index_of_pid_from(t, pid, i) matches Some(k) ==> i <= k < t.len() && t[k].identity.pid == pid
            && forall|j: int| i <= j < k ==> t[j].identity.pid != pid,
        index_of_pid_from(t, pid, i) is None ==> forall|j: int| i <= j < t.len() ==> t[j].identity.pid
            != pid,
    decreases t.len() - i,
{
    if i < t.len() && t[i].identity.pid != pid {
        lemma_index_of_pid_from(t, pid, i + 1);
    }
}

/// The index of the process with PID `pid` in `table` (executable).
pub fn pid_index(table: &Vec<Process>, pid: i32) -> (r: Option<usize>)
    ensures
        r matches Some(i) ==> index_of_pid(process_views(table@), pid) == Some(i as int) && i
            < table.len() && table@[i as int].identity.pid == pid,
        r is None ==> index_of_pid(process_views(table@), pid) is None,
{
    proof {
        lemma_index_of_pid_from(process_views(table@), pid, 0);
    }
    let ghost t = process_views(table@);
    let mut i: usize = 0;
    while i < table.len()
        invariant
            i <= table.len(),
            t == process_views(table@),
            t.len() == table.len(),
            index_of_pid(t, pid) == index_of_pid_from(t, pid, i as int),
        decreases table.len() - i,
    {
        assert(t[i as int] == table@[i as int]@);
        if table[i].identity.pid == pid {
            return Some(i);
        }
        i += 1;
    }
    None
}

/// One step up the process tree from `pid`: the parent, when both the
/// process and its parent are in the table and the parent is no launcher.
pub open spec fn parent_step(t: Seq<ProcessView>, pid: i32) -> Option<i32> {
    match index_of_pid(t, pid) {
        None => None,
        Some(i) => match index_of_pid(t, t[i].parent_pid) {
            None => None,
            Some(j) => if is_boundary(t[j]) {
                None
            } else {
                Some(t[j].identity.pid)
            },
        },
    }
}

/// The walk up the tree that has visited `path`: it stops where no step is
/// possible, or at the first PID it would visit twice.
pub open spec fn climb(t: Seq<ProcessView>, path: Seq<i32>) -> i32
    decreases t.len() + 1 - path.len(),
{
    if path.len() == 0 {
        0
    } else {
        let current = path.last();
        match parent_step(t, current) {
            None => current,
            Some(p) => if path.contains(p) {
                p
            } else if path.len() > t.len() {
                current
            } else {
                climb(t, path.push(p))
            },
        }
    }
}

/// The topmost ancestor of `pid` reached before a launcher, the edge of the
/// table or a cycle: the process an application tree is grouped under.
pub open spec fn tree_root(t: Seq<ProcessView>, pid: i32) -> i32 {
    climb(t, seq![pid])
}

/// The PIDs of a table.
pub open spec fn pids_of(t: Seq<ProcessView>) -> Seq<i32> {
    t.map_values(|p: ProcessView| p.identity.pid)
}

/// Lemma: a duplicate-free sequence drawn from `u` is no longer than `u`.
pub proof fn lemma_distinct_bounded(s: Seq<i32>, u: Seq<i32>)
    requires
        s.no_duplicates(),
        forall|k: int| 0 <= k < s.len() ==> u.contains(#[trigger] s[k]),
    ensures
        s.len() <= u.len(),
{
    s.unique_seq_to_set();
    u.lemma_cardinality_of_set();
    assert(s.to_set().subset_of(u.to_set())) by {
        assert forall|x: i32| s.to_set().contains(x) implies u.to_set().contains(x) by {
            let k = choose|k: int| 0 <= k < s.len() && s[k] == x;
            assert(u.contains(s[k]));
        }
    }
    vstd::set_lib::lemma_len_subset(s.to_set(), u.to_set());
}

/// Whether `v` holds `x`.
fn contains_i32(v: &Vec<i32>, x: i32) -> (r: bool)
    ensures
        r == v@.contains(x),
{
    let mut k: usize = 0;
    while k < v.len()
        invariant
            k <= v.len(),
            forall|m: int| 0 <= m < k ==> v@[m] != x,
        decreases v.len() - k,
    {
        if v[k] == x {
            assert(v@[k as int] == x);
            return true;
        }
        k += 1;
    }
    false
}

/// Finds the process an application tree is grouped under (see `tree_root`).
pub fn find_tree_root(pid: i32, table: &Vec<Process>) -> (r: i32)
    ensures
        r == tree_root(process_views(table@), pid),
{
    let ghost t = process_views(table@);
    let mut visited: Vec<i32> = vec![pid];
    assert(visited@ =~= seq![pid]);
    loop
        invariant
            t == process_views(table@),
            t.len() == table.len(),
            visited@.len() >= 1,
            visited@[0] == pid,
            visited@.no_duplicates(),
            forall|k: int| 1 <= k < visited@.len() ==> pids_of(t).contains(#[trigger] visited@[k]),
            visited@.len() <= t.len() + 1,
            tree_root(t, pid) == climb(t, visited@),
        decreases t.len() + 1 - visited@.len(),
    {
        let current = visited[visited.len() - 1];
        assert(current == visited@.last());
        let step: Option<i32> = match pid_index(table, current) {
            None => None,
            Some(i) => match pid_index(table, table[i].parent_pid) {
                None => None,
                Some(j) => {
                    assert(t[i as int] == table@[i as int]@);
                    assert(t[j as int] == table@[j as int]@);
                    if is_launch_boundary(&table[j]) {
                        None
                    } else {
                        Some(table[j].identity.pid)
                    }
                },
            },
        };
        assert(step == parent_step(t, current));
        match step {
            None => {
                return current;
            },
            Some(p) => {
                proof {
                    let i = index_of_pid(t, current)->0;
                    let j = index_of_pid(t, t[i].parent_pid)->0;
                    lemma_index_of_pid_from(t, current, 0);
                    lemma_index_of_pid_from(t, t[i].parent_pid, 0);
                    assert(pids_of(t)[j] == p);
                }
                if contains_i32(&visited, p) {
                    return p;
                }
                proof {
                    let s = visited@.skip(1).push(p);
                    assert(s.no_duplicates()) by {
                        assert forall|a: int, b: int| 0 <= a < s.len() && 0 <= b < s.len() && a != b implies s[a] != s[b] by {
                            if a < s.len() - 1 && b < s.len() - 1 {
                                assert(s[a] == visited@[a + 1] && s[b] == visited@[b + 1]);
                            } else if a == s.len() - 1 {
                                assert(s[b] == visited@[b + 1]);
                            } else {
                                assert(s[a] == visited@[a + 1]);
                            }
                        }
                    }
                    assert forall|m: int| 0 <= m < s.len() implies pids_of(t).contains(#[trigger] s[m]) by {
                        if m < s.len() - 1 {
                            assert(s[m] == visited@[m + 1]);
                        }
                    }
                    lemma_distinct_bounded(s, pids_of(t));
                }
                visited.push(p);
            },
        }
    }
}

/// The table after recording `p`: it replaces the process with its PID, or
/// is added at the end.
pub open spec fn table_insert(t: Seq<ProcessView>, p: ProcessView) -> Seq<ProcessView> {
    match index_of_pid(t, p.identity.pid) {
        Some(i) => t.update(i, p),
        None => t.push(p),
    }
}

/// The processes of user `uid` other than `this_pid`, one per PID (a later
/// candidate replacing an earlier one with the same PID).
pub open spec fn process_table(candidates: Seq<ProcessView>, uid: u32, this_pid: i32) -> Seq<ProcessView>
    decreases candidates.len(),
{
    if candidates.len() == 0 {
        Seq::empty()
    } else {
        let t = process_table(candidates.drop_last(), uid, this_pid);
        let p = candidates.last();
        if p.uid == uid && p.identity.pid != this_pid {
            table_insert(t, p)
        } else {
            t
        }
    }
}

/// No two processes of `t` share a PID.
pub open spec fn distinct_pids(t: Seq<ProcessView>) -> bool {
    forall|i: int, j: int| 0 <= i < t.len() && 0 <= j < t.len() && i != j ==> t[i].identity.pid != t[j].identity.pid
}

/// Lemma: recording a process keeps PIDs distinct.
pub proof fn lemma_table_insert_distinct(t: Seq<ProcessView>, p: ProcessView)
    requires
        distinct_pids(t),
    ensures
        distinct_pids(table_insert(t, p)),
{
    lemma_index_of_pid_from(t, p.identity.pid, 0);
}

/// Lemma: the process table has one process per PID.
pub proof fn lemma_process_table_distinct(candidates: Seq<ProcessView>, uid: u32, this_pid: i32)
    ensures
        distinct_pids(process_table(candidates, uid, this_pid)),
    decreases candidates.len(),
{
    if candidates.len() > 0 {
        lemma_process_table_distinct(candidates.drop_last(), uid, this_pid);
        lemma_table_insert_distinct(process_table(candidates.drop_last(), uid, this_pid), candidates.last());
    }
}

/// Builds the process table (see `process_table`).
fn build_table(candidates: &Vec<Process>, uid: u32, this_pid: i32) -> (r: Vec<Process>)
    ensures
        process_views(r@) == process_table(process_views(candidates@), uid, this_pid),
{
    let ghost all = process_views(candidates@);
    let mut table: Vec<Process> = Vec::new();
    let mut k: usize = 0;
    while k < candidates.len()
        invariant
            k <= candidates.len(),
            all == process_views(candidates@),
            process_views(table@) == process_table(all.take(k as int), uid, this_pid),
        decreases candidates.len() - k,
    {
        assert(all.take(k + 1).drop_last() =~= all.take(k as int));
        assert(all.take(k + 1).last() == candidates@[k as int]@);
        let c = &candidates[k];
        if c.uid == uid && c.identity.pid != this_pid {
            let ghost before = process_views(table@);
            match pid_index(&table, c.identity.pid) {
                Some(i) => {
                    table.remove(i);
                    table.insert(i, copy_process(c));
                    assert(process_views(table@) =~= before.update(i as int, c@));
                },
                None => {
                    table.push(copy_process(c));
                    assert(process_views(table@) =~= before.push(c@));
                },
            }
        }
        k += 1;
    }
    assert(all.take(k as int) =~= all);
    table
}

/// The key of the application a process belongs to: `scope:<unit>` for a
/// process in an application scope, otherwise `tree:<root pid>:<root start
/// time>` for the tree it belongs to (its own start time when the root is not
/// in the table).
pub open spec fn group_key(t: Seq<ProcessView>, p: ProcessView) -> Seq<char> {
    match p.scope {
        Some((unit, _)) => "scope:"@ + unit,
        None => {
            let root = tree_root(t, p.identity.pid);
            let start = match index_of_pid(t, root) {
                Some(j) => t[j].identity.start_time,
                None => p.identity.start_time,
            };
            "tree:"@ + crate::text::signed_decimal(root as int) + ":"@ + decimal(start as nat)
        },
    }
}

/// The key of the application the `i`-th process of the table belongs to.
fn group_key_at(table: &Vec<Process>, i: usize) -> (r: Vec<char>)
    requires
        i < table.len(),
    ensures
        r@ == group_key(process_views(table@), table@[i as int]@),
{
    let p = &table[i];
    match &p.application_scope {
        Some(sc) => {
            let mut r = chars_of("scope:");
            push_str(&mut r, &sc.key);
            r
        },
        None => {
            let root = find_tree_root(p.identity.pid, table);
            let start = match pid_index(table, root) {
                Some(j) => {
                    assert(process_views(table@)[j as int] == table@[j as int]@);
                    table[j].identity.start_time
                },
                None => p.identity.start_time,
            };
            let mut r = chars_of("tree:");
            crate::text::push_signed_decimal(&mut r, root as i64);
            push_str(&mut r, ":");
            crate::text::push_decimal(&mut r, start);
            r
        },
    }
}

// ---------------------------------------------------------------------------
// Applications.
// ---------------------------------------------------------------------------

/// An application: a group of processes shown as one row.
pub struct Application {
    pub key: String,
    pub name: String,
    pub icon: String,
    pub executable: String,
    pub main_pid: i32,
    pub process_count: usize,
    pub pids: Vec<i32>,
    pub nice: i32,
    pub mixed_priority: bool,
    pub rule_key: String,
    pub saved_nice: Option<i32>,
}

/// An application as characters and numbers.
pub struct ApplicationView {
    pub key: Seq<char>,
    pub name: Seq<char>,
    pub icon: Seq<char>,
    pub executable: Seq<char>,
    pub main_pid: i32,
    pub process_count: usize,
    pub pids: Seq<i32>,
    pub nice: i32,
    pub mixed_priority: bool,
    pub rule_key: Seq<char>,
    pub saved_nice: Option<i32>,
}

impl View for Application {
    type V = ApplicationView;

    open spec fn view(&self) -> ApplicationView {
        ApplicationView {
            key: self.key@,
            name: self.name@,
            icon: self.icon@,
            executable: self.executable@,
            main_pid: self.main_pid,
            process_count: self.process_count,
            pids: self.pids@,
            nice: self.nice,
            mixed_priority: self.mixed_priority,
            rule_key: self.rule_key@,
            saved_nice: self.saved_nice,
        }
    }
}

/// An application together with the identities of its processes.
pub struct ApplicationSnapshot {
    pub application: Application,
    pub processes: Vec<ProcessIdentity>,
}

/// A snapshot as characters and numbers.
pub struct SnapshotView {
    pub application: ApplicationView,
    pub processes: Seq<ProcessIdentity>,
}

impl View for ApplicationSnapshot {
    type V = SnapshotView;

    open spec fn view(&self) -> SnapshotView {
        SnapshotView { application: self.application@, processes: self.processes@ }
    }
}

/// The view of an optional snapshot.
pub open spec fn snapshot_option_view(s: Option<ApplicationSnapshot>) -> Option<SnapshotView> {
    match s {
        Some(x) => Some(x@),
        None => None,
    }
}

/// The first index at or after `i` of a member with PID `pid`.
pub open spec fn first_with_pid_from(ms: Seq<ProcessView>, pid: i32, i: int) -> Option<int>
    decreases ms.len() - i,
{
    if i < 0 || i >= ms.len() {
        None
    } else if ms[i].identity.pid == pid {
        Some(i)
    } else {
        first_with_pid_from(ms, pid, i + 1)
    }
}

/// The first index at or after `i` of a member whose parent is not a member.
pub open spec fn first_orphan_from(ms: Seq<ProcessView>, i: int) -> Option<int>
    decreases ms.len() - i,
{
    if i < 0 || i >= ms.len() {
        None
    } else if !pids_of(ms).contains(ms[i].parent_pid) {
        Some(i)
    } else {
        first_orphan_from(ms, i + 1)
    }
}

/// The index of a group's root process: the member with the group's root PID
/// (when that is positive), else the first member whose parent is outside the
/// group, else the first member.
pub open spec fn root_index(ms: Seq<ProcessView>, root_pid: i32) -> Option<int> {
    if root_pid > 0 && first_with_pid_from(ms, root_pid, 0) is Some {
        first_with_pid_from(ms, root_pid, 0)
    } else if first_orphan_from(ms, 0) is Some {
        first_orphan_from(ms, 0)
    } else if ms.len() > 0 {
        Some(0)
    } else {
        None
    }
}

/// Whether a process's executable file name is `program`, ignoring ASCII case.
pub open spec fn runs_program(p: ProcessView, program: Seq<char>) -> bool {
    match path_file_name(p.executable) {
        Some(n) => crate::text::eq_ignore_ascii_case(n, program),
        None => false,
    }
}

/// The first index at or after `i` of a member running `program`.
pub open spec fn first_runner_from(ms: Seq<ProcessView>, program: Seq<char>, i: int) -> Option<int>
    decreases ms.len() - i,
{
    if i < 0 || i >= ms.len() {
        None
    } else if runs_program(ms[i], program) {
        Some(i)
    } else {
        first_runner_from(ms, program, i + 1)
    }
}

/// The application made of the members `ms` (ordered by PID) of the group
/// `key`: the root process is matched to a desktop entry; the representative
/// is the first member running the entry's program, else the root; name,
/// icon and rule key come from the entry when there is one, otherwise from
/// the representative; nice is the representative's, and the priority is
/// mixed when some member's nice differs.
pub open spec fn built_snapshot(
    key: Seq<char>,
    app_id: Option<Seq<char>>,
    root_pid: i32,
    ms: Seq<ProcessView>,
    entries: Seq<crate::desktop::DesktopEntryView>,
) -> Option<SnapshotView> {
    match root_index(ms, root_pid) {
        None => None,
        Some(r) => {
            let root = ms[r];
            let entry = crate::desktop::best_entry(entries, app_id, root.executable, root.name);
            let rep = match entry {
                Some(e) => match first_runner_from(ms, e.executable, 0) {
                    Some(k) => ms[k],
                    None => root,
                },
                None => root,
            };
            Some(
                SnapshotView {
                    application: ApplicationView {
                        key,
                        name: match entry {
                            Some(e) => e.name,
                            None => friendly(rep.name, rep.executable),
                        },
                        icon: match entry {
                            Some(e) => e.icon,
                            None => Seq::empty(),
                        },
                        executable: rep.executable,
                        main_pid: rep.identity.pid,
                        process_count: ms.len() as usize,
                        pids: pids_of(ms),
                        nice: rep.nice,
                        mixed_priority: exists|k: int| 0 <= k < ms.len() && ms[k].nice != rep.nice,
                        rule_key: match entry {
                            Some(e) => "desktop:"@ + e.id,
                            None => "exe:"@ + rep.executable,
                        },
                        saved_nice: None,
                    },
                    processes: ms.map_values(|p: ProcessView| p.identity),
                },
            )
        },
    }
}

fn first_with_pid(ms: &Vec<Process>, pid: i32) -> (r: Option<usize>)
    ensures
        r matches Some(i) ==> i < ms.len() && first_with_pid_from(process_views(ms@), pid, 0) == Some(i as int),
        r is None ==> first_with_pid_from(process_views(ms@), pid, 0) is None,
{
    let ghost v = process_views(ms@);
    let mut i: usize = 0;
    while i < ms.len()
        invariant
            i <= ms.len(),
            v == process_views(ms@),
            first_with_pid_from(v, pid, 0) == first_with_pid_from(v, pid, i as int),
        decreases ms.len() - i,
    {
        assert(v[i as int] == ms@[i as int]@);
        if ms[i].identity.pid == pid {
            return Some(i);
        }
        i += 1;
    }
    None
}

fn first_orphan(ms: &Vec<Process>) -> (r: Option<usize>)
    ensures
        r matches Some(i) ==> i < ms.len() && first_orphan_from(process_views(ms@), 0) == Some(i as int),
        r is None ==> first_orphan_from(process_views(ms@), 0) is None,
{
    let ghost v = process_views(ms@);
    let mut i: usize = 0;
    while i < ms.len()
        invariant
            i <= ms.len(),
            v == process_views(ms@),
            first_orphan_from(v, 0) == first_orphan_from(v, i as int),
        decreases ms.len() - i,
    {
        assert(v[i as int] == ms@[i as int]@);
        let parent = ms[i].parent_pid;
        let mut found = false;
        let mut k: usize = 0;
        while k < ms.len()
            invariant
                k <= ms.len(),
                v == process_views(ms@),
                found == exists|m: int| 0 <= m < k && v[m].identity.pid == parent,
            decreases ms.len() - k,
        {
            assert(v[k as int] == ms@[k as int]@);
            if ms[k].identity.pid == parent {
                found = true;
            }
            k += 1;
        }
        assert(found == pids_of(v).contains(parent)) by {
            if found {
                let m = choose|m: int| 0 <= m < k && v[m].identity.pid == parent;
                assert(pids_of(v)[m] == parent);
            }
            if pids_of(v).contains(parent) {
                let m = choose|m: int| 0 <= m < pids_of(v).len() && pids_of(v)[m] == parent;
                assert(v[m].identity.pid == parent);
            }
        }
        if !found {
            return Some(i);
        }
        i += 1;
    }
    None
}

fn first_runner(ms: &Vec<Process>, program: &Vec<char>) -> (r: Option<usize>)
    ensures
        r matches Some(i) ==> i < ms.len() && first_runner_from(process_views(ms@), program@, 0) == Some(i as int),
        r is None ==> first_runner_from(process_views(ms@), program@, 0) is None,
{
    let ghost v = process_views(ms@);
    let mut i: usize = 0;
    while i < ms.len()
        invariant
            i <= ms.len(),
            v == process_views(ms@),
            first_runner_from(v, program@, 0) == first_runner_from(v, program@, i as int),
        decreases ms.len() - i,
    {
        assert(v[i as int] == ms@[i as int]@);
        let runs = match file_name(&chars_of(&ms[i].executable)) {
            Some(n) => crate::text::equal_ignoring_ascii_case(&n, program),
            None => false,
        };
        if runs {
            return Some(i);
        }
        i += 1;
    }
    None
}

/// Builds the application of group `key` from its members, taken in PID
/// order (see `by_pid` and `built_snapshot`); `None` when there are none.
pub fn build_application(
    key: &Vec<char>,
    app_id: &Option<Vec<char>>,
    root_pid: i32,
    group: &Vec<Process>,
    entries: &Vec<crate::desktop::DesktopEntry>,
) -> (r: Option<ApplicationSnapshot>)
    ensures
        snapshot_option_view(r) == built_snapshot(
            key@,
            match app_id {
                Some(a) => Some(a@),
                None => None,
            },
            root_pid,
            by_pid(process_views(group@)),
            crate::desktop::entry_views(entries@),
        ),
{
    let members = sort_by_pid(group);
    let members = &members;
    let ghost v = process_views(members@);
    let by_pid = if root_pid > 0 {
        first_with_pid(members, root_pid)
    } else {
        None
    };
    let r = match by_pid {
        Some(i) => i,
        None => match first_orphan(members) {
            Some(i) => i,
            None => {
                if members.len() == 0 {
                    return None;
                }
                0
            },
        },
    };
    assert(root_index(v, root_pid) == Some(r as int));
    let root = &members[r];
    assert(v[r as int] == root@);
    let app_text: Option<String> = match app_id {
        Some(a) => Some(string_of(a)),
        None => None,
    };
    let entry = match &app_text {
        Some(a) => crate::desktop::find(entries, Some(a.as_str()), &root.executable, &root.name),
        None => crate::desktop::find(entries, None, &root.executable, &root.name),
    };
    let rep_index: usize = match &entry {
        Some(e) => match first_runner(members, &chars_of(&e.executable)) {
            Some(k) => k,
            None => r,
        },
        None => r,
    };
    let rep = &members[rep_index];
    assert(v[rep_index as int] == rep@);
    let nice = rep.nice;
    let mut mixed = false;
    let mut k: usize = 0;
    while k < members.len()
        invariant
            k <= members.len(),
            v == process_views(members@),
            mixed == exists|m: int| 0 <= m < k && v[m].nice != nice,
        decreases members.len() - k,
    {
        assert(v[k as int] == members@[k as int]@);
        if members[k].nice != nice {
            mixed = true;
        }
        k += 1;
    }
    let name = match &entry {
        Some(e) => e.name.clone(),
        None => friendly_name(&rep.name, &rep.executable),
    };
    let icon = match &entry {
        Some(e) => e.icon.clone(),
        None => String::new(),
    };
    let rule_key = match &entry {
        Some(e) => {
            let mut t = chars_of("desktop:");
            push_str(&mut t, &e.id);
            string_of(&t)
        },
        None => {
            let mut t = chars_of("exe:");
            push_str(&mut t, &rep.executable);
            string_of(&t)
        },
    };
    let mut pids: Vec<i32> = Vec::new();
    let mut identities: Vec<ProcessIdentity> = Vec::new();
    let mut k: usize = 0;
    while k < members.len()
        invariant
            k <= members.len(),
            v == process_views(members@),
            pids@ == pids_of(v).take(k as int),
            identities@ == v.map_values(|p: ProcessView| p.identity).take(k as int),
        decreases members.len() - k,
    {
        assert(v[k as int] == members@[k as int]@);
        pids.push(members[k].identity.pid);
        identities.push(members[k].identity);
        assert(pids@ =~= pids_of(v).take(k + 1));
        assert(identities@ =~= v.map_values(|p: ProcessView| p.identity).take(k + 1));
        k += 1;
    }
    assert(pids@ =~= pids_of(v));
    assert(identities@ =~= v.map_values(|p: ProcessView| p.identity));
    let application = Application {
        key: string_of(key),
        name,
        icon,
        executable: rep.executable.clone(),
        main_pid: rep.identity.pid,
        process_count: members.len(),
        pids,
        nice,
        mixed_priority: mixed,
        rule_key,
        saved_nice: None,
    };
    let snapshot = ApplicationSnapshot { application, processes: identities };
    proof {
        let want = built_snapshot(
            key@,
            match app_id {
                Some(a) => Some(a@),
                None => None,
            },
            root_pid,
            v,
            crate::desktop::entry_views(entries@),
        );
        assert(snapshot@.application.icon =~= want->0.application.icon);
    }
    Some(snapshot)
}

// ---------------------------------------------------------------------------
// Grouping processes into applications.
// ---------------------------------------------------------------------------

/// The processes among the first `n` of the table whose group key is `key`,
/// in table order.
pub open spec fn members_upto(t: Seq<ProcessView>, key: Seq<char>, n: int) -> Seq<ProcessView>
    decreases n,
{
    if n <= 0 {
        Seq::empty()
    } else {
        let m = members_upto(t, key, n - 1);
        if n <= t.len() && group_key(t, t[n - 1]) == key {
            m.push(t[n - 1])
        } else {
            m
        }
    }
}

/// The processes of the table whose group key is `key`, in table order.
pub open spec fn members(t: Seq<ProcessView>, key: Seq<char>) -> Seq<ProcessView> {
    members_upto(t, key, t.len() as int)
}

/// The distinct group keys among the first `n` processes, in order of first
/// appearance.
pub open spec fn group_keys_upto(t: Seq<ProcessView>, n: int) -> Seq<Seq<char>>
    decreases n,
{
    if n <= 0 {
        Seq::empty()
    } else {
        let ks = group_keys_upto(t, n - 1);
        if n > t.len() {
            ks
        } else {
            let k = group_key(t, t[n - 1]);
            if ks.contains(k) {
                ks
            } else {
                ks.push(k)
            }
        }
    }
}

/// The distinct group keys of the table.
pub open spec fn group_keys(t: Seq<ProcessView>) -> Seq<Seq<char>> {
    group_keys_upto(t, t.len() as int)
}

/// The application id of a group, taken from its first process.
pub open spec fn leader_app_id(p: ProcessView) -> Option<Seq<char>> {
    match p.scope {
        Some((_, a)) => Some(a),
        None => None,
    }
}

/// The root PID of a group, taken from its first process: none (0) for an
/// application scope, the tree root otherwise.
pub open spec fn leader_root_pid(t: Seq<ProcessView>, p: ProcessView) -> i32 {
    match p.scope {
        Some(_) => 0,
        None => tree_root(t, p.identity.pid),
    }
}

/// The processes are in PID order.
pub open spec fn ordered_by_pid(ms: Seq<ProcessView>) -> bool {
    forall|i: int, j: int| 0 <= i < j < ms.len() ==> ms[i].identity.pid <= ms[j].identity.pid
}

/// `ms` holds the processes of `group`, in PID order.
pub open spec fn arranges(ms: Seq<ProcessView>, group: Seq<ProcessView>) -> bool {
    ordered_by_pid(ms) && ms.to_multiset() == group.to_multiset()
}

/// `snap` is the application of group `key` of table `t`.
pub open spec fn is_group_snapshot(
    t: Seq<ProcessView>,
    key: Seq<char>,
    entries: Seq<crate::desktop::DesktopEntryView>,
    snap: SnapshotView,
) -> bool {
    let group = members(t, key);
    exists|ms: Seq<ProcessView>|
        arranges(ms, group) && built_snapshot(
            key,
            leader_app_id(group[0]),
            leader_root_pid(t, group[0]),
            ms,
            entries,
        ) == Some(snap)
}

/// Lemma: a key has been seen exactly when it has members, keys are
/// distinct, and a group's first member stays first as the table grows.
pub proof fn lemma_group_keys_upto(t: Seq<ProcessView>, n: int)
    requires
        0 <= n <= t.len(),
    ensures
        group_keys_upto(t, n).no_duplicates(),
        forall|k: Seq<char>| group_keys_upto(t, n).contains(k) <==> members_upto(t, k, n).len() > 0,
        forall|k: Seq<char>, m: int| #![trigger members_upto(t, k, m)] 0 <= m <= n && members_upto(t, k, m).len() > 0 ==> members_upto(t, k, n)[0] == members_upto(t, k, m)[0] && members_upto(t, k, n).len() > 0,
    decreases n,
{
    if n > 0 {
        lemma_group_keys_upto(t, n - 1);
        let ks = group_keys_upto(t, n - 1);
        let key = group_key(t, t[n - 1]);
        assert forall|k: Seq<char>| group_keys_upto(t, n).contains(k) <==> members_upto(t, k, n).len() > 0 by {
            if !ks.contains(key) && k == key {
                assert(group_keys_upto(t, n) == ks.push(key));
                assert(group_keys_upto(t, n)[ks.len() as int] == key);
            }
            if group_keys_upto(t, n).contains(k) && !ks.contains(k) {
                let j = choose|j: int| 0 <= j < group_keys_upto(t, n).len() && group_keys_upto(t, n)[j] == k;
                if j < ks.len() {
                    assert(ks[j] == k);
                }
            }
            if ks.contains(k) {
                let j = choose|j: int| 0 <= j < ks.len() && ks[j] == k;
                if !ks.contains(key) {
                    assert(group_keys_upto(t, n)[j] == k);
                }
            }
        }
        assert forall|k: Seq<char>, m: int| #![trigger members_upto(t, k, m)] 0 <= m <= n && members_upto(t, k, m).len() > 0 implies members_upto(t, k, n)[0] == members_upto(t, k, m)[0] && members_upto(t, k, n).len() > 0 by {
            if m < n {
                assert(members_upto(t, k, n - 1)[0] == members_upto(t, k, m)[0]);
            }
        }
    }
}

/// A group being collected: its key, the application id and root PID of its
/// first process, and its processes in table order.
struct Group {
    key: Vec<char>,
    app_id: Option<Vec<char>>,
    root_pid: i32,
    members: Vec<Process>,
}

/// The view of an optional character vector.
pub open spec fn chars_option_view(o: Option<Vec<char>>) -> Option<Seq<char>> {
    match o {
        Some(v) => Some(v@),
        None => None,
    }
}

/// The index of the group with key `key`.
fn group_index(groups: &Vec<Group>, key: &Vec<char>) -> (r: Option<usize>)
    ensures
        r matches Some(g) ==> g < groups.len() && groups@[g as int].key@ == key@,
        r is None ==> forall|g: int| 0 <= g < groups.len() ==> groups@[g].key@ != key@,
{
    let mut g: usize = 0;
    while g < groups.len()
        invariant
            g <= groups.len(),
            forall|h: int| 0 <= h < g ==> groups@[h].key@ != key@,
        decreases groups.len() - g,
    {
        if crate::text::same_chars(&groups[g].key, key) {
            return Some(g);
        }
        g += 1;
    }
    None
}

/// Collects the processes of the table into groups (see `members`).
fn collect_groups(table: &Vec<Process>) -> (r: Vec<Group>)
    ensures
        r.len() == group_keys(process_views(table@)).len(),
        forall|g: int| 0 <= g < r.len() ==> {
            let t = process_views(table@);
            let key = group_keys(t)[g];
            &&& (#[trigger] r@[g]).key@ == key
            &&& process_views(r@[g].members@) == members(t, key)
            &&& members(t, key).len() > 0
            &&& chars_option_view(r@[g].app_id) == leader_app_id(members(t, key)[0])
            &&& r@[g].root_pid == leader_root_pid(t, members(t, key)[0])
        },
{
    let ghost t = process_views(table@);
    let mut groups: Vec<Group> = Vec::new();
    let mut n: usize = 0;
    while n < table.len()
        invariant
            n <= table.len(),
            t == process_views(table@),
            t.len() == table.len(),
            groups.len() == group_keys_upto(t, n as int).len(),
            forall|g: int| 0 <= g < groups.len() ==> {
                let key = group_keys_upto(t, n as int)[g];
                &&& (#[trigger] groups@[g]).key@ == key
                &&& process_views(groups@[g].members@) == members_upto(t, key, n as int)
                &&& members_upto(t, key, n as int).len() > 0
                &&& chars_option_view(groups@[g].app_id) == leader_app_id(
                    members_upto(t, key, n as int)[0],
                )
                &&& groups@[g].root_pid == leader_root_pid(t, members_upto(t, key, n as int)[0])
            },
        decreases table.len() - n,
    {
        proof {
            lemma_group_keys_upto(t, n as int);
            lemma_group_keys_upto(t, n + 1);
        }
        let ghost ks = group_keys_upto(t, n as int);
        let key = group_key_at(table, n);
        assert(t[n as int] == table@[n as int]@);
        let ghost pn = t[n as int];
        let p = copy_process(&table[n]);
        match group_index(&groups, &key) {
            Some(g) => {
                let ghost old_groups = groups@;
                let mut grp = groups.remove(g);
                let ghost before = process_views(grp.members@);
                grp.members.push(p);
                assert(process_views(grp.members@) =~= before.push(pn));
                groups.insert(g, grp);
                assert(ks[g as int] == key@);
                assert(ks.contains(key@));
                assert(group_keys_upto(t, n + 1) == ks);
                assert forall|h: int| 0 <= h < groups.len() implies {
                    let k2 = group_keys_upto(t, n + 1)[h];
                    &&& (#[trigger] groups@[h]).key@ == k2
                    &&& process_views(groups@[h].members@) == members_upto(t, k2, n + 1)
                    &&& members_upto(t, k2, n + 1).len() > 0
                    &&& chars_option_view(groups@[h].app_id) == leader_app_id(
                        members_upto(t, k2, n + 1)[0],
                    )
                    &&& groups@[h].root_pid == leader_root_pid(t, members_upto(t, k2, n + 1)[0])
                } by {
                    let k2 = ks[h];
                    assert(members_upto(t, k2, n + 1)[0] == members_upto(t, k2, n as int)[0]);
                    if h != g {
                        assert(groups@[h] == old_groups[h]);
                        assert(k2 != key@) by {
                            assert(ks.no_duplicates());
                        }
                    }
                }
            },
            None => {
                let app_id: Option<Vec<char>> = match &p.application_scope {
                    Some(sc) => Some(chars_of(&sc.app_id)),
                    None => None,
                };
                let root_pid: i32 = match &p.application_scope {
                    Some(_) => 0,
                    None => find_tree_root(p.identity.pid, table),
                };
                let ghost old_groups = groups@;
                let members = vec![p];
                assert(process_views(members@) =~= seq![pn]);
                assert(!ks.contains(key@)) by {
                    if ks.contains(key@) {
                        let j = choose|j: int| 0 <= j < ks.len() && ks[j] == key@;
                        assert(groups@[j].key@ == key@);
                    }
                }
                assert(members_upto(t, key@, n as int).len() == 0);
                assert(members_upto(t, key@, n + 1) =~= seq![pn]);
                groups.push(Group { key, app_id, root_pid, members });
                assert(group_keys_upto(t, n + 1) == ks.push(key@));
                assert forall|h: int| 0 <= h < groups.len() implies {
                    let k2 = group_keys_upto(t, n + 1)[h];
                    &&& (#[trigger] groups@[h]).key@ == k2
                    &&& process_views(groups@[h].members@) == members_upto(t, k2, n + 1)
                    &&& members_upto(t, k2, n + 1).len() > 0
                    &&& chars_option_view(groups@[h].app_id) == leader_app_id(
                        members_upto(t, k2, n + 1)[0],
                    )
                    &&& groups@[h].root_pid == leader_root_pid(t, members_upto(t, k2, n + 1)[0])
                } by {
                    if h < ks.len() {
                        let k2 = ks[h];
                        assert(groups@[h] == old_groups[h]);
                        assert(k2 != key@);
                        assert(members_upto(t, k2, n + 1)[0] == members_upto(t, k2, n as int)[0]);
                    }
                }
            },
        }
        n += 1;
    }
    groups
}

/// Where a process with PID `pid` goes into `s`, looking from index `i` on:
/// after every process whose PID is not above `pid`.
pub open spec fn pid_insertion_point(s: Seq<ProcessView>, pid: i32, i: int) -> int
    decreases s.len() - i,
{
    if 0 <= i < s.len() && s[i].identity.pid <= pid {
        pid_insertion_point(s, pid, i + 1)
    } else {
        i
    }
}

/// `ms` sorted by PID; processes with equal PIDs keep their order (a stable
/// sort, as `sort_by_key` is).
pub open spec fn by_pid(ms: Seq<ProcessView>) -> Seq<ProcessView>
    decreases ms.len(),
{
    if ms.len() == 0 {
        Seq::empty()
    } else {
        let s = by_pid(ms.drop_last());
        s.insert(pid_insertion_point(s, ms.last().identity.pid, 0), ms.last())
    }
}

/// Lemma: the insertion point follows the processes with PIDs not above
/// `pid` and comes before one with a greater PID.
pub proof fn lemma_pid_insertion_point(s: Seq<ProcessView>, pid: i32, i: int)
    requires
        0 <= i <= s.len(),
    ensures
        i <= pid_insertion_point(s, pid, i) <= s.len(),
        forall|k: int| i <= k < pid_insertion_point(s, pid, i) ==> s[k].identity.pid <= pid,
        pid_insertion_point(s, pid, i) < s.len() ==> s[pid_insertion_point(s, pid, i)].identity.pid
            > pid,
    decreases s.len() - i,
{
    if i < s.len() && s[i].identity.pid <= pid {
        lemma_pid_insertion_point(s, pid, i + 1);
    }
}

/// Lemma: `by_pid` arranges its processes in PID order (see `arranges`).
pub proof fn lemma_by_pid_arranges(ms: Seq<ProcessView>)
    ensures
        arranges(by_pid(ms), ms),
        by_pid(ms).len() == ms.len(),
    decreases ms.len(),
{
    broadcast use vstd::seq_lib::group_to_multiset_ensures;

    if ms.len() == 0 {
        assert(by_pid(ms).to_multiset() =~= ms.to_multiset());
    } else {
        let init = ms.drop_last();
        let x = ms.last();
        lemma_by_pid_arranges(init);
        let before = by_pid(init);
        let pos = pid_insertion_point(before, x.identity.pid, 0);
        lemma_pid_insertion_point(before, x.identity.pid, 0);
        let after = before.insert(pos, x);
        assert(by_pid(ms) == after);
        vstd::seq_lib::to_multiset_insert(before, pos, x);
        assert(ms =~= init.push(x));
        assert forall|a: int, b: int| 0 <= a < b < after.len() implies after[a].identity.pid
            <= after[b].identity.pid by {
            if b < pos {
            } else if b == pos {
                assert(after[a] == before[a]);
            } else if a < pos {
                assert(after[a] == before[a]);
                assert(after[b] == before[b - 1]);
                assert(before[pos].identity.pid > x.identity.pid);
            } else if a == pos {
                assert(after[b] == before[b - 1]);
                if b - 1 > pos {
                    assert(before[pos].identity.pid <= before[b - 1].identity.pid);
                }
            } else {
                assert(after[a] == before[a - 1]);
                assert(after[b] == before[b - 1]);
            }
        }
    }
}

/// Sorts processes by PID, keeping the order of equal PIDs (see `by_pid`).
fn sort_by_pid(ms: &Vec<Process>) -> (r: Vec<Process>)
    ensures
        process_views(r@) == by_pid(process_views(ms@)),
{
    let ghost all = process_views(ms@);
    let mut out: Vec<Process> = Vec::new();
    let mut i: usize = 0;
    while i < ms.len()
        invariant
            i <= ms.len(),
            all == process_views(ms@),
            process_views(out@) == by_pid(all.take(i as int)),
        decreases ms.len() - i,
    {
        let x = copy_process(&ms[i]);
        assert(all[i as int] == x@);
        let ghost before = process_views(out@);
        let mut pos: usize = 0;
        while pos < out.len() && out[pos].identity.pid <= x.identity.pid
            invariant
                pos <= out.len(),
                before == process_views(out@),
                pid_insertion_point(before, x.identity.pid, 0) == pid_insertion_point(
                    before,
                    x.identity.pid,
                    pos as int,
                ),
            decreases out.len() - pos,
        {
            assert(before[pos as int] == out@[pos as int]@);
            pos += 1;
        }
        proof {
            if pos < out.len() {
                assert(before[pos as int] == out@[pos as int]@);
            }
            assert(all.take(i + 1).drop_last() =~= all.take(i as int));
            assert(all.take(i + 1).last() == x@);
        }
        let ghost xv = x@;
        out.insert(pos, x);
        assert(process_views(out@) =~= before.insert(pos as int, xv));
        i += 1;
    }
    assert(all.take(i as int) =~= all);
    out
}

/// Whether application `a` may be listed before `b`: by lowercased name in
/// `String` order, then by main PID.
pub open spec fn listed_before(a: ApplicationView, b: ApplicationView) -> bool {
    let la = lowercase(a.name);
    let lb = lowercase(b.name);
    crate::text::lex_lt(la, lb) || (la == lb && a.main_pid <= b.main_pid)
}

/// Lemma: `listed_before` is total and transitive.
pub proof fn lemma_listed_before(a: ApplicationView, b: ApplicationView, c: ApplicationView)
    ensures
        !listed_before(b, a) ==> listed_before(a, b),
        listed_before(a, b) && listed_before(b, c) ==> listed_before(a, c),
{
    let la = lowercase(a.name);
    let lb = lowercase(b.name);
    let lc = lowercase(c.name);
    crate::text::lemma_lex_lt_strict_total(la, lb);
    crate::text::lemma_lex_lt_strict_total(la, la);
    crate::text::lemma_lex_lt_strict_total(lb, lb);
    if crate::text::lex_lt(la, lb) && crate::text::lex_lt(lb, lc) {
        crate::text::lemma_lex_lt_transitive(la, lb, lc);
    }
}

/// The application of one collected group.
fn group_snapshot(
    table: &Vec<Process>,
    group: &Group,
    entries: &Vec<crate::desktop::DesktopEntry>,
    Ghost(key): Ghost<Seq<char>>,
) -> (r: ApplicationSnapshot)
    requires
        group.key@ == key,
        process_views(group.members@) == members(process_views(table@), key),
        members(process_views(table@), key).len() > 0,
        chars_option_view(group.app_id) == leader_app_id(members(process_views(table@), key)[0]),
        group.root_pid == leader_root_pid(
            process_views(table@),
            members(process_views(table@), key)[0],
        ),
    ensures
        r@.application.key == key,
        is_group_snapshot(process_views(table@), key, crate::desktop::entry_views(entries@), r@),
{
    let ghost t = process_views(table@);
    let ghost msv = by_pid(process_views(group.members@));
    proof {
        lemma_by_pid_arranges(process_views(group.members@));
        assert(root_index(msv, group.root_pid) is Some);
    }
    let built = build_application(&group.key, &group.app_id, group.root_pid, &group.members, entries);
    assert(arranges(msv, members(t, key)));
    built.unwrap()
}

/// Rows of the application list: each application with its lowercased name.
pub open spec fn rows_listed(rows: Seq<(Vec<char>, ApplicationSnapshot)>) -> bool {
    &&& forall|k: int| 0 <= k < rows.len() ==> (#[trigger] rows[k]).0@ == lowercase(rows[k].1@.application.name)
    &&& forall|a: int, b: int|
        0 <= a < b < rows.len() ==> listed_before(
            (#[trigger] rows[a]).1@.application,
            (#[trigger] rows[b]).1@.application,
        )
}

/// Inserts an application into a listed row sequence at its place.
fn insert_listed(rows: &mut Vec<(Vec<char>, ApplicationSnapshot)>, snap: ApplicationSnapshot)
    requires
        rows_listed(old(rows)@),
    ensures
        rows_listed(final(rows)@),
        final(rows)@.len() == old(rows)@.len() + 1,
        exists|pos: int|
            0 <= pos <= old(rows)@.len() && final(rows)@[pos].1@ == snap@ && (forall|k: int|
                0 <= k < pos ==> #[trigger] final(rows)@[k] == old(rows)@[k]) && (forall|k: int|
                pos < k < final(rows)@.len() ==> #[trigger] final(rows)@[k] == old(rows)@[k - 1]),
{
    let lname = to_lowercase(&chars_of(&snap.application.name));
    let ghost sv = snap@;
    let ghost before = rows@;
    let mut pos: usize = 0;
    while pos < rows.len() && (crate::text::precedes(&rows[pos].0, &lname) || (
    crate::text::same_chars(&rows[pos].0, &lname) && rows[pos].1.application.main_pid
        <= snap.application.main_pid))
        invariant
            pos <= rows.len(),
            before == rows@,
            rows_listed(before),
            lname@ == lowercase(sv.application.name),
            sv == snap@,
            forall|k: int| 0 <= k < pos ==> listed_before((#[trigger] before[k]).1@.application, sv.application),
        decreases rows.len() - pos,
    {
        pos += 1;
    }
    proof {
        if pos < rows.len() {
            assert(!listed_before(before[pos as int].1@.application, sv.application));
        }
    }
    rows.insert(pos, (lname, snap));
    proof {
        let after = rows@;
        assert(after =~= before.insert(pos as int, after[pos as int]));
        assert forall|k: int| 0 <= k < after.len() implies (#[trigger] after[k]).0@ == lowercase(
            after[k].1@.application.name,
        ) by {
            if k < pos {
                assert(after[k] == before[k]);
            } else if k > pos {
                assert(after[k] == before[k - 1]);
            }
        }
        assert forall|a: int, b: int| 0 <= a < b < after.len() implies listed_before(
            (#[trigger] after[a]).1@.application,
            (#[trigger] after[b]).1@.application,
        ) by {
            let x = sv.application;
            if b < pos {
                assert(after[a] == before[a] && after[b] == before[b]);
            } else if b == pos {
                assert(after[a] == before[a]);
            } else if a < pos {
                assert(after[a] == before[a]);
                assert(after[b] == before[b - 1]);
                lemma_listed_before(x, before[pos as int].1@.application, before[b - 1].1@.application);
                lemma_listed_before(before[a].1@.application, x, before[b - 1].1@.application);
                if b - 1 > pos {
                    assert(listed_before(before[pos as int].1@.application, before[b - 1].1@.application));
                }
            } else if a == pos {
                assert(after[b] == before[b - 1]);
                lemma_listed_before(x, before[pos as int].1@.application, before[b - 1].1@.application);
                if b - 1 > pos {
                    assert(listed_before(before[pos as int].1@.application, before[b - 1].1@.application));
                }
            } else {
                assert(after[a] == before[a - 1]);
                assert(after[b] == before[b - 1]);
            }
        }
        assert(after[pos as int].1@ == sv);
        assert forall|k: int| 0 <= k < pos implies #[trigger] after[k] == before[k] by {}
        assert forall|k: int| pos < k < after.len() implies #[trigger] after[k] == before[k - 1] by {}
    }
}

/// The applications of the current user's processes: `candidates` are the
/// processes read from `/proc`, `uid` the current effective user id,
/// `this_pid` this program's PID, and `entries` the installed desktop
/// entries. There is one application per group key of the process table
/// (see `process_table` and `group_key`), each built from its group (see
/// `is_group_snapshot`), listed by lowercased name and then main PID.
pub fn applications_from_processes(
    candidates: &Vec<Process>,
    uid: u32,
    this_pid: i32,
    entries: &Vec<crate::desktop::DesktopEntry>,
) -> (r: Vec<ApplicationSnapshot>)
    ensures
        ({
            let t = process_table(process_views(candidates@), uid, this_pid);
            let keys = group_keys(t);
            &&& r.len() == keys.len()
            &&& forall|i: int|
                0 <= i < r.len() ==> keys.contains((#[trigger] r@[i])@.application.key)
                    && is_group_snapshot(
                    t,
                    r@[i]@.application.key,
                    crate::desktop::entry_views(entries@),
                    r@[i]@,
                )
            &&& forall|i: int, j: int|
                0 <= i < r.len() && 0 <= j < r.len() && i != j ==> (#[trigger] r@[i])@.application.key
                    != (#[trigger] r@[j])@.application.key
            &&& forall|i: int, j: int|
                0 <= i < j < r.len() ==> listed_before(
                    (#[trigger] r@[i])@.application,
                    (#[trigger] r@[j])@.application,
                )
        }),
        forall|i: int, j: int|
            0 <= i < j < r.len() ==> crate::text::lex_lt(
                lowercase((#[trigger] r@[i])@.application.name),
                lowercase((#[trigger] r@[j])@.application.name),
            ) || (lowercase(r@[i]@.application.name) == lowercase(r@[j]@.application.name)
                && r@[i]@.application.main_pid <= r@[j]@.application.main_pid),
{
    let table = build_table(candidates, uid, this_pid);
    let ghost t = process_views(table@);
    let ghost ents = crate::desktop::entry_views(entries@);
    let groups = collect_groups(&table);
    let ghost keys = group_keys(t);
    proof {
        lemma_group_keys_upto(t, t.len() as int);
    }
    let mut rows: Vec<(Vec<char>, ApplicationSnapshot)> = Vec::new();
    let mut g: usize = 0;
    while g < groups.len()
        invariant
            g <= groups.len(),
            t == process_views(table@),
            ents == crate::desktop::entry_views(entries@),
            keys == group_keys(t),
            keys.no_duplicates(),
            groups.len() == keys.len(),
            forall|h: int| 0 <= h < groups.len() ==> {
                let key = keys[h];
                &&& (#[trigger] groups@[h]).key@ == key
                &&& process_views(groups@[h].members@) == members(t, key)
                &&& members(t, key).len() > 0
                &&& chars_option_view(groups@[h].app_id) == leader_app_id(members(t, key)[0])
                &&& groups@[h].root_pid == leader_root_pid(t, members(t, key)[0])
            },
            rows.len() == g,
            rows_listed(rows@),
            forall|k: int| 0 <= k < rows.len() ==> {
                &&& exists|h: int| 0 <= h < g && keys[h] == (#[trigger] rows@[k]).1@.application.key
                &&& is_group_snapshot(t, rows@[k].1@.application.key, ents, rows@[k].1@)
            },
            forall|a: int, b: int|
                0 <= a < rows.len() && 0 <= b < rows.len() && a != b ==> (#[trigger] rows@[a]).1@.application.key
                    != (#[trigger] rows@[b]).1@.application.key,
        decreases groups.len() - g,
    {
        let ghost key = keys[g as int];
        assert(groups@[g as int].key@ == key);
        let snap = group_snapshot(&table, &groups[g], entries, Ghost(key));
        let ghost sv = snap@;
        let ghost before = rows@;
        insert_listed(&mut rows, snap);
        proof {
            let after = rows@;
            let pos = choose|pos: int|
                0 <= pos <= before.len() && after[pos].1@ == sv && (forall|k: int|
                    0 <= k < pos ==> #[trigger] after[k] == before[k]) && (forall|k: int|
                    pos < k < after.len() ==> #[trigger] after[k] == before[k - 1]);
            assert forall|k: int| 0 <= k < after.len() implies {
                &&& exists|h: int| 0 <= h < g + 1 && keys[h] == (#[trigger] after[k]).1@.application.key
                &&& is_group_snapshot(t, after[k].1@.application.key, ents, after[k].1@)
            } by {
                if k < pos {
                    assert(after[k] == before[k]);
                } else if k > pos {
                    assert(after[k] == before[k - 1]);
                } else {
                    assert(keys[g as int] == after[k].1@.application.key);
                }
            }
            assert forall|a: int, b: int|
                0 <= a < after.len() && 0 <= b < after.len() && a != b implies (#[trigger] after[a]).1@.application.key
                    != (#[trigger] after[b]).1@.application.key by {
                let ia = if a < pos { a } else { a - 1 };
                let ib = if b < pos { b } else { b - 1 };
                if a == pos && b != pos {
                    assert(after[b] == before[ib]);
                    let h = choose|h: int| 0 <= h < g && keys[h] == before[ib].1@.application.key;
                    assert(keys[h] != keys[g as int]);
                } else if b == pos && a != pos {
                    assert(after[a] == before[ia]);
                    let h = choose|h: int| 0 <= h < g && keys[h] == before[ia].1@.application.key;
                    assert(keys[h] != keys[g as int]);
                } else if a != pos && b != pos {
                    assert(after[a] == before[ia]);
                    assert(after[b] == before[ib]);
                }
            }
        }
        g += 1;
    }
    let mut r: Vec<ApplicationSnapshot> = Vec::new();
    let ghost listed = rows@;
    assert forall|k: int| 0 <= k < listed.len() implies keys.contains((#[trigger] listed[k]).1@.application.key) by {
        let h = choose|h: int| 0 <= h < g && keys[h] == listed[k].1@.application.key;
    }
    while rows.len() > 0
        invariant
            r.len() + rows.len() == listed.len(),
            forall|k: int| 0 <= k < rows.len() ==> #[trigger] rows@[k] == listed[r.len() + k],
            forall|k: int| 0 <= k < r.len() ==> (#[trigger] r@[k])@ == listed[k].1@,
        decreases rows.len(),
    {
        let ghost before = rows@;
        let (_, snap) = rows.remove(0);
        assert(snap@ == listed[r.len() as int].1@);
        r.push(snap);
        assert forall|k: int| 0 <= k < rows.len() implies #[trigger] rows@[k] == listed[r.len() + k] by {
            assert(rows@[k] == before[k + 1]);
        }
    }
    r
}

// ---------------------------------------------------------------------------
// Laws.
// ---------------------------------------------------------------------------

/// The process table holds only processes of user `uid`, and never the
/// program's own process `this_pid`.
pub proof fn law_table_holds_only_other_processes_of_user(
    candidates: Seq<ProcessView>,
    uid: u32,
    this_pid: i32,
)
    ensures
        forall|i: int|
            0 <= i < process_table(candidates, uid, this_pid).len() ==> (#[trigger] process_table(
                candidates,
                uid,
                this_pid,
            )[i]).uid == uid && process_table(candidates, uid, this_pid)[i].identity.pid
                != this_pid,
    decreases candidates.len(),
{
    if candidates.len() > 0 {
        law_table_holds_only_other_processes_of_user(candidates.drop_last(), uid, this_pid);
        let t = process_table(candidates.drop_last(), uid, this_pid);
        let p = candidates.last();
        lemma_index_of_pid_from(t, p.identity.pid, 0);
        if p.uid == uid && p.identity.pid != this_pid {
            let n = table_insert(t, p);
            assert forall|i: int| 0 <= i < n.len() implies (#[trigger] n[i]).uid == uid
                && n[i].identity.pid != this_pid by {
                if i < t.len() && n[i] != p {
                    assert(n[i] == t[i]);
                }
            }
        }
    }
}

/// Lemma: the members of a key have that key, come from the table, and
/// every process of the table up to `n` is among the members of its own key.
pub proof fn lemma_members_upto(t: Seq<ProcessView>, n: int)
    requires
        0 <= n <= t.len(),
    ensures
        forall|k: Seq<char>, j: int|
            0 <= j < members_upto(t, k, n).len() ==> group_key(t, #[trigger] members_upto(t, k, n)[j]) == k
                && t.contains(members_upto(t, k, n)[j]),
        forall|i: int| 0 <= i < n ==> members_upto(t, group_key(t, #[trigger] t[i]), n).contains(t[i]),
    decreases n,
{
    if n > 0 {
        lemma_members_upto(t, n - 1);
        assert forall|k: Seq<char>, j: int|
            0 <= j < members_upto(t, k, n).len() implies group_key(t, #[trigger] members_upto(t, k, n)[j]) == k
                && t.contains(members_upto(t, k, n)[j]) by {
            if j < members_upto(t, k, n - 1).len() {
                assert(members_upto(t, k, n)[j] == members_upto(t, k, n - 1)[j]);
            } else {
                assert(members_upto(t, k, n)[j] == t[n - 1]);
            }
        }
        assert forall|i: int| 0 <= i < n implies members_upto(t, group_key(t, #[trigger] t[i]), n).contains(t[i]) by {
            let k = group_key(t, t[i]);
            if i < n - 1 {
                let j = choose|j: int| 0 <= j < members_upto(t, k, n - 1).len() && #[trigger] members_upto(t, k, n - 1)[j] == t[i];
                assert(members_upto(t, k, n)[j] == t[i]);
            } else {
                assert(members_upto(t, k, n)[members_upto(t, k, n - 1).len() as int] == t[i]);
            }
        }
    }
}

/// Every process of the table belongs to exactly one application group: its
/// key is one of the group keys, it is among that group's members, and it is
/// a member of no other group.
pub proof fn law_each_process_in_exactly_one_group(t: Seq<ProcessView>, i: int)
    requires
        0 <= i < t.len(),
    ensures
        group_keys(t).contains(group_key(t, t[i])),
        members(t, group_key(t, t[i])).contains(t[i]),
        forall|k: Seq<char>| #[trigger] members(t, k).contains(t[i]) ==> k == group_key(t, t[i]),
{
    lemma_members_upto(t, t.len() as int);
    lemma_group_keys_upto(t, t.len() as int);
    assert forall|k: Seq<char>| #[trigger] members(t, k).contains(t[i]) implies k == group_key(t, t[i]) by {
        let j = choose|j: int| 0 <= j < members(t, k).len() && members(t, k)[j] == t[i];
        assert(group_key(t, members(t, k)[j]) == k);
    }
}

/// The processes listed for an application are processes of the table
/// with the application's key: so no application lists this program's own
/// process or a process of another user.
pub proof fn law_listed_processes_belong_to_the_group(
    candidates: Seq<ProcessView>,
    uid: u32,
    this_pid: i32,
    entries: Seq<crate::desktop::DesktopEntryView>,
    snap: SnapshotView,
)
    requires
        is_group_snapshot(process_table(candidates, uid, this_pid), snap.application.key, entries, snap),
    ensures
        forall|j: int|
            0 <= j < snap.processes.len() ==> exists|p: ProcessView|
                process_table(candidates, uid, this_pid).contains(p) && p.identity == #[trigger] snap.processes[j]
                    && group_key(process_table(candidates, uid, this_pid), p) == snap.application.key
                    && p.uid == uid && p.identity.pid != this_pid,
{
    let t = process_table(candidates, uid, this_pid);
    let key = snap.application.key;
    let group = members(t, key);
    let ms = choose|ms: Seq<ProcessView>|
        arranges(ms, group) && built_snapshot(
            key,
            leader_app_id(group[0]),
            leader_root_pid(t, group[0]),
            ms,
            entries,
        ) == Some(snap);
    lemma_members_upto(t, t.len() as int);
    law_table_holds_only_other_processes_of_user(candidates, uid, this_pid);
    assert forall|j: int| 0 <= j < snap.processes.len() implies exists|p: ProcessView|
        t.contains(p) && p.identity == #[trigger] snap.processes[j] && group_key(t, p) == key
            && p.uid == uid && p.identity.pid != this_pid by {
        assert(snap.processes == ms.map_values(|p: ProcessView| p.identity));
        let m = ms[j];
        ms.to_multiset_ensures();
        group.to_multiset_ensures();
        assert(ms[j] == m);
        assert(ms.contains(m));
        assert(ms.to_multiset().count(m) > 0);
        assert(group.to_multiset().count(m) > 0);
        assert(group.contains(m));
        let g = choose|g: int| 0 <= g < group.len() && group[g] == m;
        assert(group_key(t, group[g]) == key && t.contains(group[g]));
        let w = choose|w: int| 0 <= w < t.len() && t[w] == m;
        assert(t[w].uid == uid);
    }
}

/// The PID reached after `n` steps up the tree from `pid` (see
/// `parent_step`), if the walk gets that far.
pub open spec fn walk(t: Seq<ProcessView>, pid: i32, n: nat) -> Option<i32>
    decreases n,
{
    if n == 0 {
        Some(pid)
    } else {
        match walk(t, pid, (n - 1) as nat) {
            Some(x) => parent_step(t, x),
            None => None,
        }
    }
}

/// Lemma: a step starts and ends at processes of the table.
proof fn lemma_parent_step_in_table(t: Seq<ProcessView>, x: i32)
    ensures
        parent_step(t, x) matches Some(p) ==> pids_of(t).contains(x) && pids_of(t).contains(p),
{
    lemma_index_of_pid_from(t, x, 0);
    if let Some(i) = index_of_pid(t, x) {
        assert(pids_of(t)[i] == x);
        lemma_index_of_pid_from(t, t[i].parent_pid, 0);
        if let Some(j) = index_of_pid(t, t[i].parent_pid) {
            assert(pids_of(t)[j] == t[j].identity.pid);
        }
    }
}

/// Lemma: a walk that has already visited `a` first and then followed the
/// walk from `b` ends where the walk from `b` alone ends, as long as the walk
/// from `b` never comes back to `a`.
proof fn lemma_climb_with_origin(t: Seq<ProcessView>, a: i32, b: i32, path: Seq<i32>)
    requires
        path.len() >= 1,
        path.no_duplicates(),
        !path.contains(a),
        pids_of(t).contains(a),
        forall|k: int| 0 <= k < path.len() ==> pids_of(t).contains(#[trigger] path[k]),
        forall|k: int| 0 <= k < path.len() ==> walk(t, b, k as nat) == Some(#[trigger] path[k]),
        forall|n: nat| #[trigger] walk(t, b, n) != Some(a),
    ensures
        climb(t, seq![a] + path) == climb(t, path),
    decreases t.len() + 1 - path.len(),
{
    let q = seq![a] + path;
    let current = path.last();
    assert(q.last() == current);
    assert(q.no_duplicates()) by {
        assert forall|i: int, j: int| 0 <= i < q.len() && 0 <= j < q.len() && i != j implies q[i] != q[j] by {
            if i > 0 && j > 0 {
                assert(q[i] == path[i - 1] && q[j] == path[j - 1]);
            } else if i == 0 {
                assert(q[j] == path[j - 1]);
            } else {
                assert(q[i] == path[i - 1]);
            }
        }
    }
    assert forall|k: int| 0 <= k < q.len() implies pids_of(t).contains(#[trigger] q[k]) by {
        if k > 0 {
            assert(q[k] == path[k - 1]);
        }
    }
    lemma_distinct_bounded(q, pids_of(t));
    pids_of(t).lemma_cardinality_of_set();
    assert(pids_of(t).len() == t.len());
    match parent_step(t, current) {
        None => {},
        Some(p) => {
            let n = path.len();
            assert(walk(t, b, (n - 1) as nat) == Some(current));
            assert(walk(t, b, n as nat) == Some(p));
            assert(p != a);
            assert(q.contains(p) == path.contains(p)) by {
                if q.contains(p) {
                    let i = choose|i: int| 0 <= i < q.len() && q[i] == p;
                    assert(i > 0);
                    assert(path[i - 1] == p);
                }
                if path.contains(p) {
                    let i = choose|i: int| 0 <= i < path.len() && path[i] == p;
                    assert(q[i + 1] == p);
                }
            }
            if !path.contains(p) {
                lemma_parent_step_in_table(t, current);
                let path2 = path.push(p);
                let q2 = q.push(p);
                assert(q2 =~= seq![a] + path2);
                assert(q2.no_duplicates()) by {
                    assert forall|i: int, j: int| 0 <= i < q2.len() && 0 <= j < q2.len() && i != j implies q2[i] != q2[j] by {
                        if i < q.len() && j < q.len() {
                            assert(q2[i] == q[i] && q2[j] == q[j]);
                        } else if i == q.len() {
                            assert(q2[j] == q[j]);
                            if j > 0 {
                                assert(q[j] == path[j - 1]);
                            }
                        } else {
                            assert(q2[i] == q[i]);
                            if i > 0 {
                                assert(q[i] == path[i - 1]);
                            }
                        }
                    }
                }
                assert forall|k: int| 0 <= k < q2.len() implies pids_of(t).contains(#[trigger] q2[k]) by {
                    if k < q.len() {
                        assert(q2[k] == q[k]);
                    }
                }
                lemma_distinct_bounded(q2, pids_of(t));
                assert(path2.no_duplicates()) by {
                    assert forall|i: int, j: int| 0 <= i < path2.len() && 0 <= j < path2.len() && i != j implies path2[i] != path2[j] by {
                        assert(path2[i] == q2[i + 1] && path2[j] == q2[j + 1]);
                    }
                }
                assert(!path2.contains(a)) by {
                    if path2.contains(a) {
                        let i = choose|i: int| 0 <= i < path2.len() && path2[i] == a;
                        assert(q2[i + 1] == a && q2[0] == a);
                    }
                }
                assert forall|k: int| 0 <= k < path2.len() implies pids_of(t).contains(#[trigger] path2[k]) by {
                    assert(path2[k] == q2[k + 1]);
                }
                assert forall|k: int| 0 <= k < path2.len() implies walk(t, b, k as nat) == Some(#[trigger] path2[k]) by {
                    if k < path.len() {
                        assert(path2[k] == path[k]);
                    }
                }
                lemma_climb_with_origin(t, a, b, path2);
            }
        },
    }
}

/// A process and its (non-launcher) parent are grouped under the same
/// root: walking up from a process first steps to its parent, so, unless
/// the walk from the parent comes back to the process (a cycle), both walks
/// end at the same process.
pub proof fn law_descendants_share_root(t: Seq<ProcessView>, a: i32, b: i32)
    requires
        parent_step(t, a) == Some(b),
        forall|n: nat| #[trigger] walk(t, b, n) != Some(a),
    ensures
        tree_root(t, a) == tree_root(t, b),
{
    lemma_parent_step_in_table(t, a);
    assert(walk(t, b, 0) == Some(b));
    assert(a != b);
    assert(pids_of(t).len() == t.len());
    let start = seq![a];
    assert(start.last() == a);
    assert(!start.contains(b)) by {
        if start.contains(b) {
            let i = choose|i: int| 0 <= i < start.len() && start[i] == b;
            assert(start[i] == a);
        }
    }
    assert(t.len() >= 1) by {
        let i = choose|i: int| 0 <= i < pids_of(t).len() && pids_of(t)[i] == a;
    }
    assert(start.push(b) =~= seq![a] + seq![b]);
    assert(climb(t, start) == climb(t, start.push(b)));
    let path = seq![b];
    assert(path.no_duplicates());
    assert(!path.contains(a)) by {
        if path.contains(a) {
            let i = choose|i: int| 0 <= i < path.len() && path[i] == a;
            assert(path[i] == b);
        }
    }
    assert forall|k: int| 0 <= k < path.len() implies walk(t, b, k as nat) == Some(#[trigger] path[k]) by {
        assert(k == 0);
    }
    lemma_climb_with_origin(t, a, b, path);
}


/// The launchers are exactly these shells, terminals, privilege and session
/// tools: a process is a launch boundary when the lowercased file name of
/// its executable (its process name when the path has none) is `systemd`,
/// `init`, `bash`, `dash`, `fish`, `sh`, `zsh`, `sudo`, `doas`, `pkexec`,
/// `sshd`, `konsole`, `konsole-bin`, `kitty`, `alacritty`, `wezterm`,
/// `gnome-terminal-server`, `kgx`, `ptyxis`, `codex`, `hyprland`, `uwsm`,
/// `plasmashell`, `dbus-broker`, `xdg-desktop-portal`,
/// `xdg-desktop-portal-kde` or `xdg-desktop-portal-gtk`, and only then.
pub proof fn law_launchers_are_the_named_programs(p: ProcessView)
    ensures
        ({
            let n = lowercase(
                match path_file_name(p.executable) {
                    Some(x) => x,
                    None => p.name,
                },
            );
            is_boundary(p) <==> (n == "systemd"@
            || n == "init"@
            || n == "bash"@
            || n == "dash"@
            || n == "fish"@
            || n == "sh"@
            || n == "zsh"@
            || n == "sudo"@
            || n == "doas"@
            || n == "pkexec"@
            || n == "sshd"@
            || n == "konsole"@
            || n == "konsole-bin"@
            || n == "kitty"@
            || n == "alacritty"@
            || n == "wezterm"@
            || n == "gnome-terminal-server"@
            || n == "kgx"@
            || n == "ptyxis"@
            || n == "codex"@
            || n == "hyprland"@
            || n == "uwsm"@
            || n == "plasmashell"@
            || n == "dbus-broker"@
            || n == "xdg-desktop-portal"@
            || n == "xdg-desktop-portal-kde"@
            || n == "xdg-desktop-portal-gtk"@)
        }),
{
    let n = lowercase(
        match path_file_name(p.executable) {
            Some(x) => x,
            None => p.name,
        },
    );
    let l = launch_boundary_names();
    assert(l.len() == 27);
    assert(l[0] == "systemd"@);
    assert(l[1] == "init"@);
    assert(l[2] == "bash"@);
    assert(l[3] == "dash"@);
    assert(l[4] == "fish"@);
    assert(l[5] == "sh"@);
    assert(l[6] == "zsh"@);
    assert(l[7] == "sudo"@);
    assert(l[8] == "doas"@);
    assert(l[9] == "pkexec"@);
    assert(l[10] == "sshd"@);
    assert(l[11] == "konsole"@);
    assert(l[12] == "konsole-bin"@);
    assert(l[13] == "kitty"@);
    assert(l[14] == "alacritty"@);
    assert(l[15] == "wezterm"@);
    assert(l[16] == "gnome-terminal-server"@);
    assert(l[17] == "kgx"@);
    assert(l[18] == "ptyxis"@);
    assert(l[19] == "codex"@);
    assert(l[20] == "hyprland"@);
    assert(l[21] == "uwsm"@);
    assert(l[22] == "plasmashell"@);
    assert(l[23] == "dbus-broker"@);
    assert(l[24] == "xdg-desktop-portal"@);
    assert(l[25] == "xdg-desktop-portal-kde"@);
    assert(l[26] == "xdg-desktop-portal-gtk"@);
    if l.contains(n) {
        let k = choose|k: int| 0 <= k < l.len() && l[k] == n;
        assert(l[k] == n);
    }
}


/// Lemma: a found member with a PID lies among the members.
proof fn lemma_first_with_pid_from(ms: Seq<ProcessView>, pid: i32, i: int)
    ensures
        first_with_pid_from(ms, pid, i) matches Some(k) ==> 0 <= k < ms.len(),
    decreases ms.len() - i,
{
    if 0 <= i < ms.len() && ms[i].identity.pid != pid {
        lemma_first_with_pid_from(ms, pid, i + 1);
    }
}

/// Lemma: a found orphan lies among the members.
proof fn lemma_first_orphan_from(ms: Seq<ProcessView>, i: int)
    ensures
        first_orphan_from(ms, i) matches Some(k) ==> 0 <= k < ms.len(),
    decreases ms.len() - i,
{
    if 0 <= i < ms.len() && pids_of(ms).contains(ms[i].parent_pid) {
        lemma_first_orphan_from(ms, i + 1);
    }
}

/// Lemma: a group with members has a root among them.
proof fn lemma_root_index(ms: Seq<ProcessView>, root_pid: i32)
    requires
        ms.len() > 0,
    ensures
        root_index(ms, root_pid) matches Some(r) && 0 <= r < ms.len(),
{
    lemma_first_with_pid_from(ms, root_pid, 0);
    lemma_first_orphan_from(ms, 0);
}

/// Lemma: the first runner found from `i` on runs the program and no
/// member between `i` and it does; when none is found, no member from `i`
/// on runs it.
pub proof fn lemma_first_runner_from(ms: Seq<ProcessView>, program: Seq<char>, i: int)
    requires
        0 <= i,
    ensures
        first_runner_from(ms, program, i) matches Some(k) ==> i <= k < ms.len() && runs_program(
            ms[k],
            program,
        ) && forall|j: int| i <= j < k ==> !runs_program(#[trigger] ms[j], program),
        first_runner_from(ms, program, i) is None ==> forall|j: int|
            i <= j < ms.len() ==> !runs_program(#[trigger] ms[j], program),
    decreases ms.len() - i,
{
    if i < ms.len() && !runs_program(ms[i], program) {
        lemma_first_runner_from(ms, program, i + 1);
    }
}

/// The representative of an application (its main PID, nice value and
/// executable) is the first member, in the members' order, whose executable
/// file name is the matched entry's program (ignoring ASCII case), so with
/// members in PID order no member with a smaller PID runs it; when there is
/// no matched entry or no member runs its program, it is the root process.
pub proof fn law_representative_is_first_runner(
    key: Seq<char>,
    app_id: Option<Seq<char>>,
    root_pid: i32,
    ms: Seq<ProcessView>,
    entries: Seq<crate::desktop::DesktopEntryView>,
)
    requires
        ms.len() > 0,
    ensures
        ({
            let r = root_index(ms, root_pid)->0;
            let entry = crate::desktop::best_entry(entries, app_id, ms[r].executable, ms[r].name);
            let prog = entry->0.executable;
            let s = built_snapshot(key, app_id, root_pid, ms, entries);
            &&& 0 <= r < ms.len()
            &&& s is Some
            &&& (entry is Some && exists|k: int|
                0 <= k < ms.len() && (path_file_name(#[trigger] ms[k].executable) matches Some(n)
                    && crate::text::eq_ignore_ascii_case(n, prog))) ==> exists|k: int|
                0 <= k < ms.len() && (path_file_name(#[trigger] ms[k].executable) matches Some(n)
                    && crate::text::eq_ignore_ascii_case(n, prog)) && (forall|j: int|
                    0 <= j < k ==> !(path_file_name(#[trigger] ms[j].executable) matches Some(n)
                        && crate::text::eq_ignore_ascii_case(n, prog))) && (ordered_by_pid(ms)
                    ==> forall|j: int|
                    0 <= j < ms.len() && ms[j].identity.pid < ms[k].identity.pid ==> !(
                    path_file_name(#[trigger] ms[j].executable) matches Some(n)
                        && crate::text::eq_ignore_ascii_case(n, prog))) && s->0.application.main_pid
                    == ms[k].identity.pid && s->0.application.nice == ms[k].nice
                    && s->0.application.executable == ms[k].executable
            &&& (entry is None || forall|k: int|
                0 <= k < ms.len() ==> !(path_file_name(#[trigger] ms[k].executable) matches Some(n)
                    && crate::text::eq_ignore_ascii_case(n, prog))) ==> s->0.application.main_pid
                == ms[r].identity.pid && s->0.application.nice == ms[r].nice
                && s->0.application.executable == ms[r].executable
        }),
{
    let r = root_index(ms, root_pid)->0;
    lemma_root_index(ms, root_pid);
    let entry = crate::desktop::best_entry(entries, app_id, ms[r].executable, ms[r].name);
    match entry {
        Some(e) => {
            lemma_first_runner_from(ms, e.executable, 0);
            match first_runner_from(ms, e.executable, 0) {
                Some(k) => {
                    assert(runs_program(ms[k], e.executable));
                    assert forall|j: int| 0 <= j < k implies !(path_file_name(
                        #[trigger] ms[j].executable,
                    ) matches Some(n) && crate::text::eq_ignore_ascii_case(n, e.executable)) by {
                        assert(!runs_program(ms[j], e.executable));
                    }
                    if ordered_by_pid(ms) {
                        assert forall|j: int|
                            0 <= j < ms.len() && ms[j].identity.pid < ms[k].identity.pid implies !(
                            path_file_name(#[trigger] ms[j].executable) matches Some(n)
                                && crate::text::eq_ignore_ascii_case(n, e.executable)) by {
                            if k <= j {
                                assert(ms[k].identity.pid <= ms[j].identity.pid);
                            }
                            assert(!runs_program(ms[j], e.executable));
                        }
                    }
                },
                None => {
                    assert forall|k: int| 0 <= k < ms.len() implies !(path_file_name(
                        #[trigger] ms[k].executable,
                    ) matches Some(n) && crate::text::eq_ignore_ascii_case(n, e.executable)) by {
                        assert(!runs_program(ms[k], e.executable));
                    }
                },
            }
        },
        None => {},
    }
}


/// The listing order compares names after lowercasing: a name that sorts
/// first once lowercased comes first, and names equal once lowercased (such
/// as names that differ only in letter case) are ordered by main PID.
pub proof fn law_listing_order_ignores_case(a: ApplicationView, b: ApplicationView)
    ensures
        crate::text::lex_lt(lowercase(a.name), lowercase(b.name)) ==> listed_before(a, b)
            && !listed_before(b, a),
        lowercase(a.name) == lowercase(b.name) ==> (listed_before(a, b) <==> a.main_pid
            <= b.main_pid),
        listed_before(a, b) ==> crate::text::lex_lt(lowercase(a.name), lowercase(b.name)) || (
        lowercase(a.name) == lowercase(b.name) && a.main_pid <= b.main_pid),
{
    let la = lowercase(a.name);
    let lb = lowercase(b.name);
    crate::text::lemma_lex_lt_strict_total(la, lb);
    crate::text::lemma_lex_lt_strict_total(la, la);
}

} // verus!
