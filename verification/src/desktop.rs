//! Desktop entries (`*.desktop` files): parsing, the directories they are
//! looked up in, and matching a running program to its entry.
use vstd::prelude::*;

use crate::text::{
    chars_of, chars_to_strings, eq_ignore_ascii_case, equal_ignoring_ascii_case, file_name,
    find_char, first_char, join_path, joined, last_char, lemma_rfind_char_before, lemma_views_push,
    lines, lines_of, lowercase, path_file_name, paths_equal, replace, replaced, rfind_char,
    same_chars, same_path, slice, split_at_first, split_once, starts_with, string_of, string_views,
    strings_to_chars, strip_leading, strip_trailing, to_lowercase, trim, trim_end_matches,
    trim_start_matches, trimmed, views, words, words_of,
};

verus! {

broadcast use vstd::string::group_string_axioms;

/// What the library keeps of an installed desktop entry.
#[derive(Clone, Debug, PartialEq, Eq)]
pub struct DesktopEntry {
    pub id: String,
    pub name: String,
    pub icon: String,
    pub executable: String,
    pub startup_class: String,
}

/// A desktop entry as characters.
pub struct DesktopEntryView {
    pub id: Seq<char>,
    pub name: Seq<char>,
    pub icon: Seq<char>,
    pub executable: Seq<char>,
    pub startup_class: Seq<char>,
}

impl View for DesktopEntry {
    type V = DesktopEntryView;

    open spec fn view(&self) -> DesktopEntryView {
        DesktopEntryView {
            id: self.id@,
            name: self.name@,
            icon: self.icon@,
            executable: self.executable@,
            startup_class: self.startup_class@,
        }
    }
}

/// The views of a sequence of entries.
pub open spec fn entry_views(entries: Seq<DesktopEntry>) -> Seq<DesktopEntryView> {
    entries.map_values(|e: DesktopEntry| e@)
}

/// Copies an entry field by field.
fn copy_entry(e: &DesktopEntry) -> (r: DesktopEntry)
    ensures
        r@ == e@,
{
    DesktopEntry {
        id: e.id.clone(),
        name: e.name.clone(),
        icon: e.icon.clone(),
        executable: e.executable.clone(),
        startup_class: e.startup_class.clone(),
    }
}

// ---------------------------------------------------------------------------
// Identifiers.
// ---------------------------------------------------------------------------

/// A desktop or application identifier reduced to a comparable form: every
/// trailing `.desktop`, then every leading `app-` and `flatpak-` removed, the
/// systemd escape `\x2d` turned back into `-`, and the whole lowercased.
pub open spec fn normalized(value: Seq<char>) -> Seq<char> {
    lowercase(
        replace(
            trim_start_matches(
                trim_start_matches(trim_end_matches(value, ".desktop"@), "app-"@),
                "flatpak-"@,
            ),
            "\\x2d"@,
            "-"@,
        ),
    )
}

/// Normalizes a desktop or application identifier (see `normalized`).
pub fn normalize(value: &Vec<char>) -> (r: Vec<char>)
    ensures
        r@ == normalized(value@),
{
    let a = strip_trailing(value, &chars_of(".desktop"));
    let b = strip_leading(&a, &chars_of("app-"));
    let c = strip_leading(&b, &chars_of("flatpak-"));
    let d = replaced(&c, &chars_of("\\x2d"), &chars_of("-"));
    to_lowercase(&d)
}

/// The part of an identifier after its last `.` (the whole when it has none).
pub open spec fn id_tail(id: Seq<char>) -> Seq<char> {
    match rfind_char(id, '.') {
        Some(i) => id.skip(i + 1),
        None => id,
    }
}

fn tail_of(id: &Vec<char>) -> (r: Vec<char>)
    ensures
        r@ == id_tail(id@),
{
    match last_char(id, '.') {
        Some(i) => {
            proof {
                lemma_rfind_char_before(id@, '.', id@.len() as int);
            }
            assert(i < id.len());
            let r = slice(id, i + 1, id.len());
            assert(r@ =~= id@.skip(i + 1));
            r
        },
        None => id.clone(),
    }
}

// ---------------------------------------------------------------------------
// Matching a program to an entry.
// ---------------------------------------------------------------------------

/// How well `entry` matches a program: 100 when its normalized identifier is
/// the program's (normalized) application id, 80 when its executable equals
/// the program's executable name ignoring ASCII case, 70 when its identifier
/// or the identifier's last dotted part is that executable name, 60 when its
/// window class equals the (lowercased) process name ignoring ASCII case, and
/// 0 when nothing matches.
pub open spec fn match_score(
    entry: DesktopEntryView,
    app_id: Option<Seq<char>>,
    executable_name: Seq<char>,
    process_name: Seq<char>,
) -> int {
    let entry_id = normalized(entry.id);
    if app_id == Some(entry_id) {
        100
    } else if eq_ignore_ascii_case(entry.executable, executable_name) {
        80
    } else if entry_id == executable_name || id_tail(entry_id) == executable_name {
        70
    } else if eq_ignore_ascii_case(entry.startup_class, process_name) {
        60
    } else {
        0
    }
}

/// The lowercased name of a program's executable file, or of the process
/// when the path has no file name.
pub open spec fn program_name(executable: Seq<char>, process_name: Seq<char>) -> Seq<char> {
    lowercase(
        match path_file_name(executable) {
            Some(n) => n,
            None => process_name,
        },
    )
}

/// The score of each entry for a program.
pub open spec fn scores(
    entries: Seq<DesktopEntryView>,
    app_id: Option<Seq<char>>,
    executable: Seq<char>,
    process_name: Seq<char>,
) -> Seq<int> {
    entries.map_values(
        |e: DesktopEntryView|
            match_score(
                e,
                match app_id {
                    Some(a) => Some(normalized(a)),
                    None => None,
                },
                program_name(executable, process_name),
                lowercase(process_name),
            ),
    )
}

/// `i` holds the best positive score, and every later entry scores less
/// (the last of equally good matches wins).
pub open spec fn is_best(s: Seq<int>, i: int) -> bool {
    &&& 0 <= i < s.len()
    &&& s[i] > 0
    &&& forall|j: int| 0 <= j < s.len() ==> s[j] <= s[i]
    &&& forall|j: int| i < j < s.len() ==> s[j] < s[i]
}

/// The view of an optional entry.
pub open spec fn entry_option_view(e: Option<DesktopEntry>) -> Option<DesktopEntryView> {
    match e {
        Some(x) => Some(x@),
        None => None,
    }
}

/// The entry that best matches a program (see `match_score` and `is_best`),
/// or `None` when no entry matches at all.
pub open spec fn best_entry(
    entries: Seq<DesktopEntryView>,
    app_id: Option<Seq<char>>,
    executable: Seq<char>,
    process_name: Seq<char>,
) -> Option<DesktopEntryView> {
    let s = scores(entries, app_id, executable, process_name);
    if exists|i: int| is_best(s, i) {
        Some(entries[choose|i: int| is_best(s, i)])
    } else {
        None
    }
}

/// Lemma: at most one index is the best.
pub proof fn lemma_best_unique(s: Seq<int>, i: int)
    requires
        is_best(s, i),
    ensures
        forall|j: int| is_best(s, j) ==> j == i,
        (choose|j: int| is_best(s, j)) == i,
{
    assert forall|j: int| is_best(s, j) implies j == i by {
        if j < i {
            assert(s[i] < s[j]);
        } else if j > i {
            assert(s[j] < s[i]);
        }
    }
}

/// The entry that best matches a program with an optional application id,
/// an executable path and a process name; see `match_score`.
pub fn find(
    entries: &Vec<DesktopEntry>,
    app_id: Option<&str>,
    executable: &str,
    process_name: &str,
) -> (r: Option<DesktopEntry>)
    ensures
        ({
            let s = scores(entry_views(entries@), app_id.deep_view(), executable@, process_name@);
            &&& r is None <==> (forall|j: int| 0 <= j < s.len() ==> s[j] <= 0)
            &&& r matches Some(e) ==> exists|i: int| is_best(s, i) && e@ == entries@[i]@
        }),
        entry_option_view(r) == best_entry(
            entry_views(entries@),
            app_id.deep_view(),
            executable@,
            process_name@,
        ),
{
    let ghost s = scores(entry_views(entries@), app_id.deep_view(), executable@, process_name@);
    let process = chars_of(process_name);
    let base = match file_name(&chars_of(executable)) {
        Some(n) => n,
        None => process.clone(),
    };
    let executable_name = to_lowercase(&base);
    let process_lower = to_lowercase(&process);
    let wanted: Option<Vec<char>> = match app_id {
        Some(a) => Some(normalize(&chars_of(a))),
        None => None,
    };
    assert(executable_name@ == program_name(executable@, process_name@));
    let mut best: Option<usize> = None;
    let mut best_score: u32 = 0;
    let mut i: usize = 0;
    while i < entries.len()
        invariant
            i <= entries.len(),
            s == scores(entry_views(entries@), app_id.deep_view(), executable@, process_name@),
            s.len() == entries.len(),
            executable_name@ == program_name(executable@, process_name@),
            process_lower@ == lowercase(process_name@),
            wanted matches Some(w) ==> app_id.deep_view() matches Some(a) && w@ == normalized(a),
            wanted is None ==> app_id is None,
            best is None ==> best_score == 0 && forall|j: int| 0 <= j < i ==> s[j] <= 0,
            best matches Some(b) ==> {
                &&& b < i
                &&& best_score == s[b as int]
                &&& s[b as int] > 0
                &&& forall|j: int| 0 <= j < i ==> s[j] <= s[b as int]
                &&& forall|j: int| b < j < i ==> s[j] < s[b as int]
            },
        decreases entries.len() - i,
    {
        let entry = &entries[i];
        let entry_id = normalize(&chars_of(&entry.id));
        let id_matches = match &wanted {
            Some(w) => same_chars(w, &entry_id),
            None => false,
        };
        let score: u32 = if id_matches {
            100
        } else if equal_ignoring_ascii_case(&chars_of(&entry.executable), &executable_name) {
            80
        } else if same_chars(&entry_id, &executable_name) || same_chars(
            &tail_of(&entry_id),
            &executable_name,
        ) {
            70
        } else if equal_ignoring_ascii_case(&chars_of(&entry.startup_class), &process_lower) {
            60
        } else {
            0
        };
        assert(entry_views(entries@)[i as int] == entry@);
        assert(score == s[i as int]);
        if score > 0 && score >= best_score {
            best = Some(i);
            best_score = score;
        }
        i += 1;
    }
    match best {
        Some(b) => {
            assert(is_best(s, b as int));
            proof {
                lemma_best_unique(s, b as int);
                assert(entry_views(entries@)[b as int] == entries@[b as int]@);
            }
            Some(copy_entry(&entries[b]))
        },
        None => None,
    }
}

// ---------------------------------------------------------------------------
// Parsing an entry.
// ---------------------------------------------------------------------------

/// Whether a token of an `Exec` line only sets up the launch (`env`, an
/// option, or a variable assignment) rather than naming the program.
pub open spec fn is_launch_prefix(token: Seq<char>) -> bool {
    token == "env"@ || (token.len() > 0 && token[0] == '-') || find_char(token, '=') is Some
}

/// Whether `c` is one of the quotes that `Exec` tokens are stripped of.
pub open spec fn is_quote(c: char) -> bool {
    c == '\'' || c == '"'
}

/// `s` from index `i` on, without leading quotes.
pub open spec fn unquote_start_from(s: Seq<char>, i: int) -> Seq<char>
    decreases s.len() - i,
{
    if 0 <= i < s.len() && is_quote(s[i]) {
        unquote_start_from(s, i + 1)
    } else {
        s.skip(i)
    }
}

/// The first `j` characters of `s`, without trailing quotes.
pub open spec fn unquote_end_to(s: Seq<char>, j: int) -> Seq<char>
    decreases j,
{
    if 0 < j <= s.len() && is_quote(s[j - 1]) {
        unquote_end_to(s, j - 1)
    } else {
        s.take(j)
    }
}

/// `str::trim_matches(['\'', '"'])`.
pub open spec fn unquoted(s: Seq<char>) -> Seq<char> {
    let t = unquote_start_from(s, 0);
    unquote_end_to(t, t.len() as int)
}

fn unquote(s: &Vec<char>) -> (r: Vec<char>)
    ensures
        r@ == unquoted(s@),
{
    let mut i: usize = 0;
    while i < s.len() && (s[i] == '\'' || s[i] == '"')
        invariant
            i <= s.len(),
            unquote_start_from(s@, 0) == unquote_start_from(s@, i as int),
        decreases s.len() - i,
    {
        i += 1;
    }
    let t = slice(s, i, s.len());
    assert(t@ =~= s@.skip(i as int));
    let mut j: usize = t.len();
    while j > 0 && (t[j - 1] == '\'' || t[j - 1] == '"')
        invariant
            j <= t.len(),
            unquote_end_to(t@, t@.len() as int) == unquote_end_to(t@, j as int),
        decreases j,
    {
        j -= 1;
    }
    let r = slice(&t, 0, j);
    assert(r@ =~= t@.take(j as int));
    r
}

/// The first token at or after `i` that does not start with `%` (a field code).
pub open spec fn program_token_from(tokens: Seq<Seq<char>>, i: int) -> Option<Seq<char>>
    decreases tokens.len() - i,
{
    if i < 0 || i >= tokens.len() {
        None
    } else if tokens[i].len() > 0 && tokens[i][0] == '%' {
        program_token_from(tokens, i + 1)
    } else {
        Some(tokens[i])
    }
}

/// Skips the launch-prefix tokens from `i` on, then takes the program token.
pub open spec fn program_token_after_prefix(tokens: Seq<Seq<char>>, i: int) -> Option<Seq<char>>
    decreases tokens.len() - i,
{
    if 0 <= i < tokens.len() && is_launch_prefix(tokens[i]) {
        program_token_after_prefix(tokens, i + 1)
    } else {
        program_token_from(tokens, i)
    }
}

/// The lowercased file name of the program that an `Exec` line runs: its
/// white-space separated tokens, stripped of quotes, after the leading
/// launch-prefix tokens and skipping field codes; empty when there is none.
pub open spec fn exec_program(line: Seq<char>) -> Seq<char> {
    let tokens = words(line).map_values(|t: Seq<char>| unquoted(t));
    lowercase(
        match program_token_after_prefix(tokens, 0) {
            Some(t) => match path_file_name(t) {
                Some(n) => n,
                None => Seq::empty(),
            },
            None => Seq::empty(),
        },
    )
}

/// Whether a raw `Exec` token, unquoted, only sets up the launch.
fn unquotes_to_prefix(raw: &Vec<char>, env: &Vec<char>) -> (r: bool)
    requires
        env@ == "env"@,
    ensures
        r == is_launch_prefix(unquoted(raw@)),
{
    let token = unquote(raw);
    same_chars(&token, env) || (token.len() > 0 && token[0] == '-') || first_char(
        &token,
        '=',
    ).is_some()
}

/// Whether a raw `Exec` token, unquoted, is a field code such as `%U`.
fn unquotes_to_field_code(raw: &Vec<char>) -> (r: bool)
    ensures
        r == (unquoted(raw@).len() > 0 && unquoted(raw@)[0] == '%'),
{
    let token = unquote(raw);
    token.len() > 0 && token[0] == '%'
}

fn executable_from_exec(line: &Vec<char>) -> (r: Vec<char>)
    ensures
        r@ == exec_program(line@),
{
    let toks = words_of(line);
    let ghost tokens = words(line@).map_values(|t: Seq<char>| unquoted(t));
    assert(tokens.len() == toks.len());
    let env = chars_of("env");
    let mut i: usize = 0;
    while i < toks.len() && unquotes_to_prefix(&toks[i], &env)
        invariant
            i <= toks.len(),
            views(toks@) == words(line@),
            tokens == words(line@).map_values(|t: Seq<char>| unquoted(t)),
            tokens.len() == toks.len(),
            env@ == "env"@,
            forall|k: int| 0 <= k < toks.len() ==> #[trigger] tokens[k] == unquoted(toks@[k]@),
            program_token_after_prefix(tokens, 0) == program_token_after_prefix(tokens, i as int),
        decreases toks.len() - i,
    {
        i += 1;
    }
    assert(program_token_after_prefix(tokens, i as int) == program_token_from(tokens, i as int));
    while i < toks.len() && unquotes_to_field_code(&toks[i])
        invariant
            i <= toks.len(),
            tokens.len() == toks.len(),
            forall|k: int| 0 <= k < toks.len() ==> #[trigger] tokens[k] == unquoted(toks@[k]@),
            program_token_after_prefix(tokens, 0) == program_token_from(tokens, i as int),
        decreases toks.len() - i,
    {
        i += 1;
    }
    let name = if i < toks.len() {
        let token = unquote(&toks[i]);
        match file_name(&token) {
            Some(n) => n,
            None => Vec::new(),
        }
    } else {
        Vec::new()
    };
    to_lowercase(&name)
}

/// What a `[Desktop Entry]` scan has gathered so far.
pub struct EntryScan {
    pub in_entry: bool,
    pub name: Seq<char>,
    pub icon: Seq<char>,
    pub exec_line: Seq<char>,
    pub startup_class: Seq<char>,
    pub hidden: bool,
}

/// The scan before the first line.
pub open spec fn scan_start() -> EntryScan {
    EntryScan {
        in_entry: false,
        name: Seq::empty(),
        icon: Seq::empty(),
        exec_line: Seq::empty(),
        startup_class: Seq::empty(),
        hidden: false,
    }
}

/// One line of a desktop file: a `[...]` header opens or closes the
/// `[Desktop Entry]` group; inside it, comments and lines without `=` are
/// skipped, and the keys `Name`, `Icon`, `Exec`, `StartupWMClass` and `Hidden`
/// are recorded (the last one seen wins).
pub open spec fn scan_line(st: EntryScan, raw: Seq<char>) -> EntryScan {
    let line = trim(raw);
    if line.len() > 0 && line[0] == '[' {
        EntryScan { in_entry: line == "[Desktop Entry]"@, ..st }
    } else if !st.in_entry || (line.len() > 0 && line[0] == '#') {
        st
    } else {
        match split_once(line, "="@) {
            None => st,
            Some((key, value)) => if key == "Name"@ {
                EntryScan { name: trim(value), ..st }
            } else if key == "Icon"@ {
                EntryScan { icon: trim(value), ..st }
            } else if key == "Exec"@ {
                EntryScan { exec_line: trim(value), ..st }
            } else if key == "StartupWMClass"@ {
                EntryScan { startup_class: trim(value), ..st }
            } else if key == "Hidden"@ {
                EntryScan { hidden: eq_ignore_ascii_case(trim(value), "true"@), ..st }
            } else {
                st
            },
        }
    }
}

/// The scan after the given lines.
pub open spec fn scan_lines(lines: Seq<Seq<char>>) -> EntryScan
    decreases lines.len(),
{
    if lines.len() == 0 {
        scan_start()
    } else {
        scan_line(scan_lines(lines.drop_last()), lines.last())
    }
}

/// The entry that a desktop file with identifier `id` describes: none when
/// it is hidden or has no name.
pub open spec fn parsed_entry(id: Seq<char>, contents: Seq<char>) -> Option<DesktopEntryView> {
    let st = scan_lines(lines(contents));
    if st.hidden || st.name.len() == 0 {
        None
    } else {
        Some(
            DesktopEntryView {
                id,
                name: st.name,
                icon: st.icon,
                executable: exec_program(st.exec_line),
                startup_class: st.startup_class,
            },
        )
    }
}

/// Reads the `[Desktop Entry]` group of a desktop file.
pub fn parse_entry(id: &str, contents: &str) -> (r: Option<DesktopEntry>)
    ensures
        r matches Some(e) ==> parsed_entry(id@, contents@) == Some(e@),
        r is None ==> parsed_entry(id@, contents@) is None,
{
    let text = chars_of(contents);
    let text_lines = lines_of(&text);
    let header = chars_of("[Desktop Entry]");
    let equals = chars_of("=");
    let key_name = chars_of("Name");
    let key_icon = chars_of("Icon");
    let key_exec = chars_of("Exec");
    let key_class = chars_of("StartupWMClass");
    let key_hidden = chars_of("Hidden");
    let word_true = chars_of("true");
    let mut in_entry = false;
    let mut name: Vec<char> = Vec::new();
    let mut icon: Vec<char> = Vec::new();
    let mut exec_line: Vec<char> = Vec::new();
    let mut startup_class: Vec<char> = Vec::new();
    let mut hidden = false;
    let ghost all = views(text_lines@);
    let mut i: usize = 0;
    while i < text_lines.len()
        invariant
            i <= text_lines.len(),
            all == views(text_lines@),
            all == lines(contents@),
            header@ == "[Desktop Entry]"@,
            equals@ == "="@,
            key_name@ == "Name"@,
            key_icon@ == "Icon"@,
            key_exec@ == "Exec"@,
            key_class@ == "StartupWMClass"@,
            key_hidden@ == "Hidden"@,
            word_true@ == "true"@,
            scan_lines(all.take(i as int)) == (EntryScan {
                in_entry,
                name: name@,
                icon: icon@,
                exec_line: exec_line@,
                startup_class: startup_class@,
                hidden,
            }),
        decreases text_lines.len() - i,
    {
        let line = trimmed(&text_lines[i]);
        assert(all.take(i + 1).drop_last() =~= all.take(i as int));
        assert(all.take(i + 1).last() == text_lines@[i as int]@);
        if line.len() > 0 && line[0] == '[' {
            in_entry = same_chars(&line, &header);
        } else if !in_entry || (line.len() > 0 && line[0] == '#') {
        } else {
            match split_at_first(&line, &equals) {
                None => {},
                Some((key, value)) => {
                    if same_chars(&key, &key_name) {
                        name = trimmed(&value);
                    } else if same_chars(&key, &key_icon) {
                        icon = trimmed(&value);
                    } else if same_chars(&key, &key_exec) {
                        exec_line = trimmed(&value);
                    } else if same_chars(&key, &key_class) {
                        startup_class = trimmed(&value);
                    } else if same_chars(&key, &key_hidden) {
                        hidden = equal_ignoring_ascii_case(&trimmed(&value), &word_true);
                    }
                },
            }
        }
        i += 1;
    }
    assert(all.take(i as int) =~= all);
    if hidden || name.len() == 0 {
        return None;
    }
    let executable = executable_from_exec(&exec_line);
    Some(
        DesktopEntry {
            id: id.to_owned(),
            name: string_of(&name),
            icon: string_of(&icon),
            executable: string_of(&executable),
            startup_class: string_of(&startup_class),
        },
    )
}

// ---------------------------------------------------------------------------
// Loading the installed entries.
// ---------------------------------------------------------------------------

/// A desktop file as the loader sees it: its identifier (the file stem) and
/// its text, or `None` when it could not be read.
pub open spec fn file_views(files: Seq<(String, Option<String>)>) -> Seq<(Seq<char>, Option<Seq<char>>)> {
    files.map_values(|f: (String, Option<String>)| (f.0@, f.1.deep_view()))
}

/// The lowercased identifiers seen and the entries kept after the given
/// files: a file whose identifier, lowercased, was already seen is skipped;
/// one that could not be read, or that describes no entry, only counts as seen.
pub open spec fn load_scan(files: Seq<(Seq<char>, Option<Seq<char>>)>) -> (Seq<Seq<char>>, Seq<DesktopEntryView>)
    decreases files.len(),
{
    if files.len() == 0 {
        (Seq::empty(), Seq::empty())
    } else {
        let (seen, kept) = load_scan(files.drop_last());
        let (id, contents) = files.last();
        let key = lowercase(id);
        if seen.contains(key) {
            (seen, kept)
        } else {
            match contents {
                Some(c) => match parsed_entry(id, c) {
                    Some(e) => (seen.push(key), kept.push(e)),
                    None => (seen.push(key), kept),
                },
                None => (seen.push(key), kept),
            }
        }
    }
}

/// Whether some element of `seen` equals `key`.
fn seen_before(seen: &Vec<Vec<char>>, key: &Vec<char>) -> (r: bool)
    ensures
        r == views(seen@).contains(key@),
{
    let mut i: usize = 0;
    while i < seen.len()
        invariant
            i <= seen.len(),
            forall|k: int| 0 <= k < i ==> seen@[k]@ != key@,
        decreases seen.len() - i,
    {
        if same_chars(&seen[i], key) {
            assert(views(seen@)[i as int] == key@);
            return true;
        }
        i += 1;
    }
    assert forall|k: int| 0 <= k < views(seen@).len() implies views(seen@)[k] != key@ by {
        assert(views(seen@)[k] == seen@[k]@);
    }
    false
}

/// The entries described by the `.desktop` files found in the application
/// directories, in the order found (see `load_scan`).
pub fn entries_from_files(files: &Vec<(String, Option<String>)>) -> (r: Vec<DesktopEntry>)
    ensures
        entry_views(r@) == load_scan(file_views(files@)).1,
{
    let ghost all = file_views(files@);
    let mut seen: Vec<Vec<char>> = Vec::new();
    let mut kept: Vec<DesktopEntry> = Vec::new();
    let mut i: usize = 0;
    while i < files.len()
        invariant
            i <= files.len(),
            all == file_views(files@),
            all.len() == files.len(),
            load_scan(all.take(i as int)) == (views(seen@), entry_views(kept@)),
        decreases files.len() - i,
    {
        let (id, contents) = &files[i];
        assert(all.take(i + 1).drop_last() =~= all.take(i as int));
        assert(all.take(i + 1).last() == (id@, contents.deep_view()));
        let key = to_lowercase(&chars_of(id));
        if !seen_before(&seen, &key) {
            let ghost before = views(seen@);
            seen.push(key);
            assert(views(seen@) =~= before.push(key@));
            match contents {
                Some(c) => match parse_entry(id, c) {
                    Some(e) => {
                        let ghost kept_before = entry_views(kept@);
                        kept.push(e);
                        assert(entry_views(kept@) =~= kept_before.push(e@));
                    },
                    None => {},
                },
                None => {},
            }
        }
        i += 1;
    }
    assert(all.take(i as int) =~= all);
    kept
}

/// The application directories before duplicates are dropped: the user's
/// data directory (`XDG_DATA_HOME`, else `~/.local/share`), then the system
/// data directories (`XDG_DATA_DIRS`, else `/usr/local/share` and
/// `/usr/share`), each with `applications` appended; then the user's and the
/// system's Flatpak export directories.
pub open spec fn candidate_directories(
    data_home: Option<Seq<char>>,
    home: Option<Seq<char>>,
    data_dirs: Option<Seq<Seq<char>>>,
) -> Seq<Seq<char>> {
    let first = match data_home {
        Some(d) => seq![d],
        None => match home {
            Some(h) => seq![joined(h, ".local/share"@)],
            None => Seq::empty(),
        },
    };
    let system = match data_dirs {
        Some(d) => d,
        None => seq!["/usr/local/share"@, "/usr/share"@],
    };
    let base = (first + system).map_values(|d: Seq<char>| joined(d, "applications"@));
    let with_home = match home {
        Some(h) => base.push(joined(h, ".local/share/flatpak/exports/share/applications"@)),
        None => base,
    };
    with_home.push("/var/lib/flatpak/exports/share/applications"@)
}

/// `paths` without the paths equal to an earlier kept one.
pub open spec fn distinct_paths(paths: Seq<Seq<char>>) -> Seq<Seq<char>>
    decreases paths.len(),
{
    if paths.len() == 0 {
        Seq::empty()
    } else {
        let kept = distinct_paths(paths.drop_last());
        if exists|j: int| 0 <= j < kept.len() && same_path(kept[j], paths.last()) {
            kept
        } else {
            kept.push(paths.last())
        }
    }
}

/// The directories searched for desktop files, given the environment
/// (`XDG_DATA_HOME`, `HOME`, and `XDG_DATA_DIRS` split into paths).
pub fn application_directories(
    data_home: Option<&str>,
    home: Option<&str>,
    data_dirs: Option<&Vec<String>>,
) -> (r: Vec<String>)
    ensures
        string_views(r@) == distinct_paths(
            candidate_directories(
                data_home.deep_view(),
                home.deep_view(),
                match data_dirs {
                    Some(d) => Some(string_views(d@)),
                    None => None,
                },
            ),
        ),
{
    let ghost want = candidate_directories(
        data_home.deep_view(),
        home.deep_view(),
        match data_dirs {
            Some(d) => Some(string_views(d@)),
            None => None,
        },
    );
    let mut bases: Vec<Vec<char>> = Vec::new();
    match data_home {
        Some(d) => bases.push(chars_of(d)),
        None => match home {
            Some(h) => bases.push(join_path(&chars_of(h), ".local/share")),
            None => {},
        },
    }
    let ghost first = views(bases@);
    let system = match data_dirs {
        Some(d) => strings_to_chars(d),
        None => vec![chars_of("/usr/local/share"), chars_of("/usr/share")],
    };
    assert(views(system@) == match data_dirs {
        Some(d) => string_views(d@),
        None => seq!["/usr/local/share"@, "/usr/share"@],
    }) by {
        if data_dirs is None {
            assert(views(system@) =~= seq!["/usr/local/share"@, "/usr/share"@]);
        }
    }
    let mut k: usize = 0;
    while k < system.len()
        invariant
            k <= system.len(),
            views(bases@) == first + views(system@).take(k as int),
        decreases system.len() - k,
    {
        let c = system[k].clone();
        proof {
            lemma_views_push(bases@, c);
        }
        bases.push(c);
        assert(views(system@).take(k + 1) =~= views(system@).take(k as int).push(system@[k as int]@));
        k += 1;
    }
    assert(views(system@).take(k as int) =~= views(system@));
    let ghost joined_bases = views(bases@).map_values(|d: Seq<char>| joined(d, "applications"@));
    let mut candidates: Vec<Vec<char>> = Vec::new();
    let mut k: usize = 0;
    while k < bases.len()
        invariant
            k <= bases.len(),
            joined_bases == views(bases@).map_values(|d: Seq<char>| joined(d, "applications"@)),
            views(candidates@) == joined_bases.take(k as int),
        decreases bases.len() - k,
    {
        let c = join_path(&bases[k], "applications");
        proof {
            lemma_views_push(candidates@, c);
        }
        candidates.push(c);
        assert(joined_bases.take(k + 1) =~= joined_bases.take(k as int).push(joined_bases[k as int]));
        k += 1;
    }
    assert(joined_bases.take(k as int) =~= joined_bases);
    match home {
        Some(h) => {
            let c = join_path(&chars_of(h), ".local/share/flatpak/exports/share/applications");
            proof {
                lemma_views_push(candidates@, c);
            }
            candidates.push(c);
        },
        None => {},
    }
    let c = chars_of("/var/lib/flatpak/exports/share/applications");
    proof {
        lemma_views_push(candidates@, c);
    }
    candidates.push(c);
    assert(views(candidates@) =~= want);
    let mut kept: Vec<Vec<char>> = Vec::new();
    let mut i: usize = 0;
    while i < candidates.len()
        invariant
            i <= candidates.len(),
            views(candidates@) == want,
            views(kept@) == distinct_paths(want.take(i as int)),
        decreases candidates.len() - i,
    {
        assert(want.take(i + 1).drop_last() =~= want.take(i as int));
        assert(want.take(i + 1).last() == candidates@[i as int]@);
        let mut j: usize = 0;
        let mut duplicate = false;
        while j < kept.len()
            invariant
                i < candidates.len(),
                j <= kept.len(),
                !duplicate ==> forall|m: int| 0 <= m < j ==> !same_path(kept@[m]@, candidates@[i as int]@),
                duplicate ==> exists|m: int| 0 <= m < kept.len() && same_path(kept@[m]@, candidates@[i as int]@),
            decreases kept.len() - j,
        {
            if paths_equal(&kept[j], &candidates[i]) {
                duplicate = true;
            }
            j += 1;
        }
        proof {
            let v = views(kept@);
            if duplicate {
                let m = choose|m: int| 0 <= m < kept.len() && same_path(kept@[m]@, candidates@[i as int]@);
                assert(v[m] == kept@[m]@);
            } else {
                assert forall|m: int| 0 <= m < v.len() implies !same_path(v[m], candidates@[i as int]@) by {
                    assert(v[m] == kept@[m]@);
                }
            }
        }
        if !duplicate {
            let c = candidates[i].clone();
            proof {
                lemma_views_push(kept@, c);
            }
            kept.push(c);
        }
        i += 1;
    }
    assert(want.take(i as int) =~= want);
    chars_to_strings(&kept)
}

// ---------------------------------------------------------------------------
// Laws.
// ---------------------------------------------------------------------------

/// Lemma: when some score is positive, a best index exists.
pub proof fn lemma_best_exists(s: Seq<int>)
    requires
        exists|j: int| 0 <= j < s.len() && s[j] > 0,
    ensures
        exists|i: int| is_best(s, i),
    decreases s.len(),
{
    let init = s.drop_last();
    let last = s.len() - 1;
    assert(forall|j: int| 0 <= j < init.len() ==> init[j] == s[j]);
    if exists|j: int| 0 <= j < init.len() && init[j] > 0 {
        lemma_best_exists(init);
        let b = choose|i: int| is_best(init, i);
        if s[last] >= init[b] {
            assert forall|j: int| 0 <= j < s.len() implies s[j] <= s[last] by {
                if j < last {
                    assert(init[j] <= init[b]);
                }
            }
            assert(is_best(s, last));
        } else {
            assert forall|j: int| 0 <= j < s.len() implies s[j] <= s[b] by {
                if j < last {
                    assert(init[j] <= init[b]);
                }
            }
            assert forall|j: int| b < j < s.len() implies s[j] < s[b] by {
                if j < last {
                    assert(init[j] < init[b]);
                }
            }
            assert(is_best(s, b));
        }
    } else {
        let j = choose|j: int| 0 <= j < s.len() && s[j] > 0;
        if j < last {
            assert(init[j] > 0);
        }
        assert(s[last] > 0);
        assert forall|k: int| 0 <= k < s.len() implies s[k] <= s[last] by {
            if k < last {
                assert(!(init[k] > 0));
            }
        }
        assert(is_best(s, last));
    }
}

/// An entry whose identifier is the program's application id (both
/// normalized) always wins: the entry found then has that identifier.
pub proof fn law_application_id_match_wins(
    entries: Seq<DesktopEntryView>,
    app_id: Seq<char>,
    executable: Seq<char>,
    process_name: Seq<char>,
    i: int,
)
    requires
        0 <= i < entries.len(),
        normalized(entries[i].id) == normalized(app_id),
    ensures
        best_entry(entries, Some(app_id), executable, process_name) matches Some(e) && normalized(e.id)
            == normalized(app_id),
{
    let s = scores(entries, Some(app_id), executable, process_name);
    assert(s[i] == 100);
    lemma_best_exists(s);
    let b = choose|b: int| is_best(s, b);
    assert(s[b] >= 100);
    assert(s[b] == match_score(
        entries[b],
        Some(normalized(app_id)),
        program_name(executable, process_name),
        lowercase(process_name),
    ));
}


/// The text field of a scan that a `key=` line of the `[Desktop Entry]`
/// group sets, for the keys `Name`, `Icon`, `Exec` and `StartupWMClass`.
spec fn scan_field(st: EntryScan, key: Seq<char>) -> Seq<char> {
    if key == "Name"@ {
        st.name
    } else if key == "Icon"@ {
        st.icon
    } else if key == "Exec"@ {
        st.exec_line
    } else {
        st.startup_class
    }
}

/// One of the keys whose value is kept as text.
spec fn is_text_key(key: Seq<char>) -> bool {
    key == "Name"@ || key == "Icon"@ || key == "Exec"@ || key == "StartupWMClass"@
}

/// Lemma: what the literals of the keys hold.
proof fn lemma_key_literals()
    ensures
        "="@ == seq!['='],
        "["@ == seq!['['],
        forall|key: Seq<char>|
            #[trigger] is_text_key(key) ==> key.len() > 0 && key[0] != '[' && key[0] != '#' && (
            forall|m: int| 0 <= m < key.len() ==> key[m] != '='),
        "Name"@ != "Icon"@,
        "Name"@ != "Exec"@,
        "Icon"@ != "Exec"@,
        "Name"@ != "StartupWMClass"@,
        "Icon"@ != "StartupWMClass"@,
        "Exec"@ != "StartupWMClass"@,
{
    reveal_strlit("=");
    reveal_strlit("[");
    reveal_strlit("Name");
    reveal_strlit("Icon");
    reveal_strlit("Exec");
    reveal_strlit("StartupWMClass");
    assert("="@ =~= seq!['=']);
    assert("["@ =~= seq!['[']);
    assert("Name"@[0] != "Icon"@[0]);
    assert("Name"@[0] != "Exec"@[0]);
    assert("Icon"@[0] != "Exec"@[0]);
    assert("Name"@.len() != "StartupWMClass"@.len());
    assert("Icon"@.len() != "StartupWMClass"@.len());
    assert("Exec"@.len() != "StartupWMClass"@.len());
}

/// Lemma: the scan after one more line.
proof fn lemma_scan_step(ls: Seq<Seq<char>>, n: int)
    requires
        0 <= n < ls.len(),
    ensures
        scan_lines(ls.take(n + 1)) == scan_line(scan_lines(ls.take(n)), ls[n]),
{
    assert(ls.take(n + 1).drop_last() =~= ls.take(n));
    assert(ls.take(n + 1).last() == ls[n]);
}

/// Lemma: a `key=value` line inside the group sets that key's field to the
/// trimmed value, and the group stays open.
proof fn lemma_key_line(st: EntryScan, raw: Seq<char>, key: Seq<char>, v: Seq<char>)
    requires
        st.in_entry,
        is_text_key(key),
        trim(raw) == key + "="@ + v,
    ensures
        scan_line(st, raw).in_entry,
        scan_field(scan_line(st, raw), key) == trim(v),
{
    lemma_key_literals();
    let line = trim(raw);
    assert(line == key + seq!['='] + v);
    crate::text::lemma_split_once_key_value(key, '=', v);
    assert(line[0] == key[0]);
}

/// Lemma: a line that is no `key=` line leaves that key's field as it was.
proof fn lemma_other_line(st: EntryScan, raw: Seq<char>, key: Seq<char>)
    requires
        is_text_key(key),
        !starts_with(trim(raw), key + "="@),
    ensures
        scan_field(scan_line(st, raw), key) == scan_field(st, key),
{
    lemma_key_literals();
    crate::text::lemma_split_once_starts_with(trim(raw), '=');
}

/// Lemma: a line that is no group header leaves the group open or closed.
proof fn lemma_non_header_line(st: EntryScan, raw: Seq<char>)
    requires
        !starts_with(trim(raw), "["@),
    ensures
        scan_line(st, raw).in_entry == st.in_entry,
{
    lemma_key_literals();
    let line = trim(raw);
    if line.len() > 0 && line[0] == '[' {
        assert(line.subrange(0, 1) =~= seq!['[']);
    }
}

/// Lemma: after the `[Desktop Entry]` header at `j`, with no header up to
/// `n`, the group is open.
proof fn lemma_group_open(ls: Seq<Seq<char>>, j: int, n: int)
    requires
        0 <= j < n <= ls.len(),
        trim(ls[j]) == "[Desktop Entry]"@,
        forall|m: int| j < m < n ==> !starts_with(trim(#[trigger] ls[m]), "["@),
    ensures
        scan_lines(ls.take(n)).in_entry,
    decreases n - j,
{
    reveal_strlit("[Desktop Entry]");
    lemma_scan_step(ls, n - 1);
    if n - 1 == j {
        assert(trim(ls[j])[0] == '[');
    } else {
        lemma_group_open(ls, j, n - 1);
        lemma_non_header_line(scan_lines(ls.take(n - 1)), ls[n - 1]);
    }
}

/// Lemma: lines after `i` that are no `key=` lines keep that key's field.
proof fn lemma_field_kept(ls: Seq<Seq<char>>, i: int, n: int, key: Seq<char>)
    requires
        0 <= i < n <= ls.len(),
        is_text_key(key),
        forall|m: int| i < m < ls.len() ==> !starts_with(trim(#[trigger] ls[m]), key + "="@),
    ensures
        scan_field(scan_lines(ls.take(n)), key) == scan_field(scan_lines(ls.take(i + 1)), key),
    decreases n - i,
{
    if n > i + 1 {
        lemma_field_kept(ls, i, n - 1, key);
        lemma_scan_step(ls, n - 1);
        lemma_other_line(scan_lines(ls.take(n - 1)), ls[n - 1], key);
    }
}

/// A `Name`, `Icon`, `Exec` or `StartupWMClass` line of the open
/// `[Desktop Entry]` group (opened by the header at `j`, with no header
/// between), with no later line for the same key, gives the parsed entry
/// that field: the trimmed value, or for `Exec` the program the trimmed value
/// runs.
pub proof fn law_entry_keys_are_read(
    id: Seq<char>,
    contents: Seq<char>,
    j: int,
    i: int,
    key: Seq<char>,
    v: Seq<char>,
)
    requires
        key == "Name"@ || key == "Icon"@ || key == "Exec"@ || key == "StartupWMClass"@,
        0 <= j < i < lines(contents).len(),
        trim(lines(contents)[j]) == "[Desktop Entry]"@,
        forall|m: int| j < m < i ==> !starts_with(trim(#[trigger] lines(contents)[m]), "["@),
        trim(lines(contents)[i]) == key + "="@ + v,
        forall|m: int|
            i < m < lines(contents).len() ==> !starts_with(
                trim(#[trigger] lines(contents)[m]),
                key + "="@,
            ),
    ensures
        parsed_entry(id, contents) matches Some(e) ==> (key == "Name"@ ==> e.name == trim(v)) && (
        key == "Icon"@ ==> e.icon == trim(v)) && (key == "Exec"@ ==> e.executable == exec_program(
            trim(v),
        )) && (key == "StartupWMClass"@ ==> e.startup_class == trim(v)),
{
    let ls = lines(contents);
    assert(is_text_key(key));
    lemma_key_literals();
    lemma_group_open(ls, j, i);
    lemma_scan_step(ls, i);
    lemma_key_line(scan_lines(ls.take(i)), ls[i], key, v);
    lemma_field_kept(ls, i, ls.len() as int, key);
    assert(ls.take(ls.len() as int) =~= ls);
}


/// Whether an entry matches a program by application id, executable name,
/// identifier (or its last dotted part) or window class; `app_id` is already
/// normalized, `executable_name` and `process_name` lowercased.
spec fn match_kind(
    e: DesktopEntryView,
    app_id: Option<Seq<char>>,
    executable_name: Seq<char>,
    process_name: Seq<char>,
) -> int {
    if app_id == Some(normalized(e.id)) {
        4
    } else if eq_ignore_ascii_case(e.executable, executable_name) {
        3
    } else if normalized(e.id) == executable_name || id_tail(normalized(e.id)) == executable_name {
        2
    } else if eq_ignore_ascii_case(e.startup_class, process_name) {
        1
    } else {
        0
    }
}

/// Matches rank in this order: the application id, then the executable
/// name (ignoring ASCII case), then the identifier or its last dotted part,
/// then the window class; an entry that matches none scores nothing.
pub proof fn law_match_ranking(
    a: DesktopEntryView,
    b: DesktopEntryView,
    app_id: Option<Seq<char>>,
    x: Seq<char>,
    p: Seq<char>,
)
    ensures
        app_id == Some(normalized(a.id)) && app_id != Some(normalized(b.id)) ==> match_score(
            a,
            app_id,
            x,
            p,
        ) > match_score(b, app_id, x, p),
        app_id != Some(normalized(b.id)) && eq_ignore_ascii_case(a.executable, x)
            && !eq_ignore_ascii_case(b.executable, x) ==> match_score(a, app_id, x, p)
            > match_score(b, app_id, x, p),
        app_id != Some(normalized(b.id)) && !eq_ignore_ascii_case(b.executable, x) && (normalized(
            a.id,
        ) == x || id_tail(normalized(a.id)) == x) && !(normalized(b.id) == x || id_tail(
            normalized(b.id),
        ) == x) ==> match_score(a, app_id, x, p) > match_score(b, app_id, x, p),
        app_id != Some(normalized(b.id)) && !eq_ignore_ascii_case(b.executable, x) && !(
        normalized(b.id) == x || id_tail(normalized(b.id)) == x) && eq_ignore_ascii_case(
            a.startup_class,
            p,
        ) && !eq_ignore_ascii_case(b.startup_class, p) ==> match_score(a, app_id, x, p)
            > match_score(b, app_id, x, p),
        match_score(a, app_id, x, p) > 0 <==> (app_id == Some(normalized(a.id))
            || eq_ignore_ascii_case(a.executable, x) || normalized(a.id) == x || id_tail(
            normalized(a.id),
        ) == x || eq_ignore_ascii_case(a.startup_class, p)),
{
}

/// Lemma: scores follow the kind of match, highest kind first.
proof fn lemma_score_by_kind(
    a: DesktopEntryView,
    b: DesktopEntryView,
    app_id: Option<Seq<char>>,
    x: Seq<char>,
    p: Seq<char>,
)
    ensures
        match_kind(a, app_id, x, p) > match_kind(b, app_id, x, p) <==> match_score(a, app_id, x, p)
            > match_score(b, app_id, x, p),
        match_kind(a, app_id, x, p) > 0 <==> match_score(a, app_id, x, p) > 0,
{
}

/// The entry found for a program matches it in the best way any entry
/// does: by application id when some entry does, else by executable name
/// when some entry does, else by identifier, else by window class; no entry
/// is found when none matches at all.
pub proof fn law_found_entry_matches_best(
    entries: Seq<DesktopEntryView>,
    app_id: Option<Seq<char>>,
    executable: Seq<char>,
    process_name: Seq<char>,
)
    ensures
        ({
            let aid = match app_id {
                Some(a) => Some(normalized(a)),
                None => None,
            };
            let x = lowercase(
                match path_file_name(executable) {
                    Some(n) => n,
                    None => process_name,
                },
            );
            let p = lowercase(process_name);
            let found = best_entry(entries, app_id, executable, process_name);
            &&& (exists|i: int| 0 <= i < entries.len() && aid == Some(normalized(#[trigger] entries[i].id)))
                ==> (found is Some && aid == Some(normalized(found->0.id)))
            &&& (forall|i: int| 0 <= i < entries.len() ==> aid != Some(normalized(#[trigger] entries[i].id)))
                && (exists|i: int| 0 <= i < entries.len() && eq_ignore_ascii_case(#[trigger] entries[i].executable, x))
                ==> (found is Some && eq_ignore_ascii_case(found->0.executable, x))
            &&& (forall|i: int|
                0 <= i < entries.len() ==> aid != Some(normalized(#[trigger] entries[i].id))
                    && !eq_ignore_ascii_case(entries[i].executable, x)) && (exists|i: int|
                0 <= i < entries.len() && (normalized(#[trigger] entries[i].id) == x || id_tail(
                    normalized(entries[i].id),
                ) == x)) ==> (found is Some && (normalized(found->0.id) == x || id_tail(
                normalized(found->0.id),
            ) == x))
            &&& (forall|i: int|
                0 <= i < entries.len() ==> aid != Some(normalized(#[trigger] entries[i].id))
                    && !eq_ignore_ascii_case(entries[i].executable, x) && normalized(entries[i].id)
                    != x && id_tail(normalized(entries[i].id)) != x) && (exists|i: int|
                0 <= i < entries.len() && eq_ignore_ascii_case(#[trigger] entries[i].startup_class, p))
                ==> (found is Some && eq_ignore_ascii_case(found->0.startup_class, p))
            &&& (forall|i: int|
                0 <= i < entries.len() ==> aid != Some(normalized(#[trigger] entries[i].id))
                    && !eq_ignore_ascii_case(entries[i].executable, x) && normalized(entries[i].id)
                    != x && id_tail(normalized(entries[i].id)) != x && !eq_ignore_ascii_case(
                    entries[i].startup_class,
                    p,
                )) ==> found is None
        }),
{
    let aid = match app_id {
        Some(a) => Some(normalized(a)),
        None => None,
    };
    let x = program_name(executable, process_name);
    let p = lowercase(process_name);
    let s = scores(entries, app_id, executable, process_name);
    assert forall|i: int| 0 <= i < entries.len() implies #[trigger] s[i] == match_score(
        entries[i],
        aid,
        x,
        p,
    ) by {}
    if exists|i: int| 0 <= i < s.len() && s[i] > 0 {
        lemma_best_exists(s);
        let b = choose|b: int| is_best(s, b);
        lemma_best_unique(s, b);
        let e = entries[b];
        assert(best_entry(entries, app_id, executable, process_name) == Some(e));
        assert forall|i: int| 0 <= i < entries.len() implies match_kind(
            #[trigger] entries[i],
            aid,
            x,
            p,
        ) <= match_kind(e, aid, x, p) by {
            lemma_score_by_kind(entries[i], e, aid, x, p);
            assert(s[i] <= s[b]);
        }
        if exists|i: int| 0 <= i < entries.len() && aid == Some(normalized(#[trigger] entries[i].id)) {
            let i = choose|i: int| 0 <= i < entries.len() && aid == Some(normalized(#[trigger] entries[i].id));
            assert(match_kind(entries[i], aid, x, p) <= match_kind(e, aid, x, p));
        }
        if exists|i: int| 0 <= i < entries.len() && eq_ignore_ascii_case(#[trigger] entries[i].executable, x) {
            let i = choose|i: int| 0 <= i < entries.len() && eq_ignore_ascii_case(#[trigger] entries[i].executable, x);
            assert(match_kind(entries[i], aid, x, p) <= match_kind(e, aid, x, p));
        }
        if exists|i: int| 0 <= i < entries.len() && (normalized(#[trigger] entries[i].id) == x || id_tail(normalized(entries[i].id)) == x) {
            let i = choose|i: int| 0 <= i < entries.len() && (normalized(#[trigger] entries[i].id) == x || id_tail(normalized(entries[i].id)) == x);
            assert(match_kind(entries[i], aid, x, p) <= match_kind(e, aid, x, p));
        }
        if exists|i: int| 0 <= i < entries.len() && eq_ignore_ascii_case(#[trigger] entries[i].startup_class, p) {
            let i = choose|i: int| 0 <= i < entries.len() && eq_ignore_ascii_case(#[trigger] entries[i].startup_class, p);
            assert(match_kind(entries[i], aid, x, p) <= match_kind(e, aid, x, p));
        }
        assert(0 <= b < entries.len());
        assert(s[b] > 0);
    } else {
        assert forall|i: int| 0 <= i < entries.len() implies match_kind(
            #[trigger] entries[i],
            aid,
            x,
            p,
        ) == 0 by {
            lemma_score_by_kind(entries[i], entries[i], aid, x, p);
            assert(!(s[i] > 0));
        }
        assert(!exists|i: int| is_best(s, i));
    }
}


/// Lemma: a `Hidden=value` line inside the group records whether the value
/// is `true` (ignoring ASCII case), and the group stays open.
proof fn lemma_hidden_line(st: EntryScan, raw: Seq<char>, v: Seq<char>)
    requires
        st.in_entry,
        trim(raw) == "Hidden="@ + v,
    ensures
        scan_line(st, raw).in_entry,
        scan_line(st, raw).hidden == eq_ignore_ascii_case(trim(v), "true"@),
{
    lemma_key_literals();
    reveal_strlit("Hidden=");
    reveal_strlit("Hidden");
    let key = "Hidden"@;
    assert("Hidden="@ =~= key + "="@);
    let line = trim(raw);
    assert(line =~= key + seq!['='] + v);
    assert forall|m: int| 0 <= m < key.len() implies key[m] != '=' by {}
    crate::text::lemma_split_once_key_value(key, '=', v);
    assert(line[0] == 'H');
    assert(key != "Name"@ && key != "Icon"@ && key != "Exec"@ && key != "StartupWMClass"@) by {
        reveal_strlit("Name");
        reveal_strlit("Icon");
        reveal_strlit("Exec");
        reveal_strlit("StartupWMClass");
        assert(key[0] != "Name"@[0]);
        assert(key[0] != "Icon"@[0]);
        assert(key[0] != "Exec"@[0]);
        assert(key.len() != "StartupWMClass"@.len());
    }
}

/// Lemma: a line that is no `Hidden=` line leaves the hidden flag as it was.
proof fn lemma_not_hidden_line(st: EntryScan, raw: Seq<char>)
    requires
        !starts_with(trim(raw), "Hidden="@),
    ensures
        scan_line(st, raw).hidden == st.hidden,
{
    lemma_key_literals();
    reveal_strlit("Hidden=");
    reveal_strlit("Hidden");
    assert("Hidden="@ =~= "Hidden"@ + seq!['=']);
    crate::text::lemma_split_once_starts_with(trim(raw), '=');
}

/// Lemma: lines after `i` that are no `Hidden=` lines keep the hidden flag.
proof fn lemma_hidden_kept(ls: Seq<Seq<char>>, i: int, n: int)
    requires
        0 <= i < n <= ls.len(),
        forall|m: int| i < m < ls.len() ==> !starts_with(trim(#[trigger] ls[m]), "Hidden="@),
    ensures
        scan_lines(ls.take(n)).hidden == scan_lines(ls.take(i + 1)).hidden,
    decreases n - i,
{
    if n > i + 1 {
        lemma_hidden_kept(ls, i, n - 1);
        lemma_scan_step(ls, n - 1);
        lemma_not_hidden_line(scan_lines(ls.take(n - 1)), ls[n - 1]);
    }
}

/// A hidden entry is dropped: when the last `Hidden` line of the open
/// `[Desktop Entry]` group (opened by the header at `j`, with no header
/// between) has the value `true`, ignoring ASCII case, the file describes no
/// entry; with any other value, it describes one exactly when it has a name.
pub proof fn law_hidden_entries_are_dropped(
    id: Seq<char>,
    contents: Seq<char>,
    j: int,
    i: int,
    v: Seq<char>,
)
    requires
        0 <= j < i < lines(contents).len(),
        trim(lines(contents)[j]) == "[Desktop Entry]"@,
        forall|m: int| j < m < i ==> !starts_with(trim(#[trigger] lines(contents)[m]), "["@),
        trim(lines(contents)[i]) == "Hidden="@ + v,
        forall|m: int|
            i < m < lines(contents).len() ==> !starts_with(
                trim(#[trigger] lines(contents)[m]),
                "Hidden="@,
            ),
    ensures
        eq_ignore_ascii_case(trim(v), "true"@) ==> parsed_entry(id, contents) is None,
        !eq_ignore_ascii_case(trim(v), "true"@) ==> (parsed_entry(id, contents) is Some
            <==> scan_lines(lines(contents)).name.len() > 0),
{
    let ls = lines(contents);
    lemma_group_open(ls, j, i);
    lemma_scan_step(ls, i);
    lemma_hidden_line(scan_lines(ls.take(i)), ls[i], v);
    lemma_hidden_kept(ls, i, ls.len() as int);
    assert(ls.take(ls.len() as int) =~= ls);
}

} // verus!
