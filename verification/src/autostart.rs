//! The XDG autostart entry ("start with the system"): where it lives, when it
//! counts as enabled, and the text written to enable it.
use vstd::prelude::*;

use crate::text::{
    chars_of, chars_to_strings, contains, eq_ignore_ascii_case, equal_ignoring_ascii_case,
    has_substring, is_space, join_path, joined, lemma_lines_append, lemma_lines_cons,
    lemma_lines_have_no_line_feed, lemma_lines_one, lemma_trim_keeps_first, lemma_trim_of_strip_cr,
    lemma_trim_of_unpadded, lemma_trim_without_final_space, lemma_views_push, lines, lines_of,
    no_line_feed, push_all, push_str, string_of, string_views, strings_to_chars, strip_cr, trim,
    trimmed, views,
};

verus! {

broadcast use vstd::string::group_string_axioms;

/// The file name of the application's desktop entry.
pub open spec fn desktop_file_name() -> Seq<char> {
    "io.github.applicationprioritysetter.desktop"@
}

/// The directory of autostart entries: `$XDG_CONFIG_HOME/autostart`, else
/// `$HOME/.config/autostart`, else `.config/autostart`.
pub open spec fn autostart_dir_spec(xdg_config_home: Option<Seq<char>>, home: Option<Seq<char>>) -> Seq<char> {
    let base = match xdg_config_home {
        Some(d) => d,
        None => match home {
            Some(h) => joined(h, ".config"@),
            None => ".config"@,
        },
    };
    joined(base, "autostart"@)
}

/// The directory of autostart entries, given `XDG_CONFIG_HOME` and `HOME`.
pub fn autostart_dir(xdg_config_home: Option<&str>, home: Option<&str>) -> (r: String)
    ensures
        r@ == autostart_dir_spec(xdg_config_home.deep_view(), home.deep_view()),
{
    let base = match xdg_config_home {
        Some(d) => chars_of(d),
        None => match home {
            Some(h) => join_path(&chars_of(h), ".config"),
            None => chars_of(".config"),
        },
    };
    string_of(&join_path(&base, "autostart"))
}

/// The path of the application's autostart entry, given `XDG_CONFIG_HOME`
/// and `HOME`.
pub fn autostart_path(xdg_config_home: Option<&str>, home: Option<&str>) -> (r: String)
    ensures
        r@ == joined(
            autostart_dir_spec(xdg_config_home.deep_view(), home.deep_view()),
            desktop_file_name(),
        ),
{
    let dir = autostart_dir(xdg_config_home, home);
    string_of(&join_path(&chars_of(&dir), "io.github.applicationprioritysetter.desktop"))
}

/// Whether a line reads `Hidden=true`, ignoring surrounding space and ASCII case.
pub open spec fn hides(line: Seq<char>) -> bool {
    eq_ignore_ascii_case(trim(line), "Hidden=true"@)
}

/// Whether a line reads `X-GNOME-Autostart-enabled=false`, ignoring
/// surrounding space and ASCII case.
pub open spec fn turns_gnome_flag_off(line: Seq<char>) -> bool {
    eq_ignore_ascii_case(trim(line), "X-GNOME-Autostart-enabled=false"@)
}

/// Whether a line reads `X-GNOME-Autostart-enabled=true`, ignoring
/// surrounding space and ASCII case.
pub open spec fn sets_gnome_flag_on(line: Seq<char>) -> bool {
    eq_ignore_ascii_case(trim(line), "X-GNOME-Autostart-enabled=true"@)
}

/// Whether a line of an autostart entry switches it off.
pub open spec fn disables(line: Seq<char>) -> bool {
    hides(line) || turns_gnome_flag_off(line)
}

/// No line of the entry switches autostart off.
pub open spec fn none_disables(c: Seq<char>) -> bool {
    forall|i: int| 0 <= i < lines(c).len() ==> !disables(#[trigger] lines(c)[i])
}

/// Autostart is on when the entry could be read and no line switches it off.
pub open spec fn enabled_by(contents: Option<Seq<char>>) -> bool {
    match contents {
        None => false,
        Some(c) => none_disables(c),
    }
}

/// Whether autostart is on, given the text of the autostart entry (`None`
/// when it could not be read).
pub fn is_enabled(contents: Option<&str>) -> (r: bool)
    ensures
        r == enabled_by(contents.deep_view()),
{
    let text = match contents {
        Some(c) => chars_of(c),
        None => {
            return false;
        },
    };
    let ls = lines_of(&text);
    let hidden = chars_of("Hidden=true");
    let gnome_off = chars_of("X-GNOME-Autostart-enabled=false");
    let mut i: usize = 0;
    while i < ls.len()
        invariant
            i <= ls.len(),
            views(ls@) == lines(text@),
            contents.deep_view() == Some(text@),
            hidden@ == "Hidden=true"@,
            gnome_off@ == "X-GNOME-Autostart-enabled=false"@,
            forall|k: int| 0 <= k < i ==> !disables(#[trigger] lines(text@)[k]),
        decreases ls.len() - i,
    {
        assert(views(ls@)[i as int] == ls@[i as int]@);
        let t = trimmed(&ls[i]);
        if equal_ignoring_ascii_case(&t, &hidden) || equal_ignoring_ascii_case(&t, &gnome_off) {
            assert(views(ls@).len() == ls@.len());
            assert(disables(lines(text@)[i as int]));
            assert(!none_disables(text@));
            return false;
        }
        i += 1;
    }
    true
}

/// What enabling or disabling autostart does to the entry file.
#[derive(Clone, Copy, Debug, PartialEq, Eq)]
pub enum AutostartChange {
    /// Remove the entry (a missing entry counts as removed).
    Remove,
    /// Write the entry (see `entry_contents`).
    Write,
}

/// The change to the entry file that turns autostart on or off.
pub fn set_enabled(enabled: bool) -> (r: AutostartChange)
    ensures
        r == if enabled {
            AutostartChange::Write
        } else {
            AutostartChange::Remove
        },
{
    if enabled {
        AutostartChange::Write
    } else {
        AutostartChange::Remove
    }
}

/// A line of a copied entry as it is written out: `Hidden=true` becomes
/// `Hidden=false`, `X-GNOME-Autostart-enabled=false` becomes
/// `X-GNOME-Autostart-enabled=true`, any other line stays.
pub open spec fn copied_line(line: Seq<char>) -> Seq<char> {
    if hides(line) {
        "Hidden=false"@
    } else if turns_gnome_flag_off(line) {
        "X-GNOME-Autostart-enabled=true"@
    } else {
        line
    }
}

/// The text of a copied entry and whether it already carries the GNOME
/// autostart flag, after the given lines: each line as copied (see
/// `copied_line`), ended by a line feed.
pub open spec fn flag_scan(ls: Seq<Seq<char>>) -> (Seq<char>, bool)
    decreases ls.len(),
{
    if ls.len() == 0 {
        (Seq::empty(), false)
    } else {
        let (out, has_flag) = flag_scan(ls.drop_last());
        let piece = copied_line(ls.last());
        (out + piece + "\n"@, has_flag || sets_gnome_flag_on(piece))
    }
}

/// Lemma: the lines this library writes in place of others neither hide the
/// entry nor turn the GNOME flag off; `Hidden=false` does not set the flag,
/// `X-GNOME-Autostart-enabled=true` does; each, with a line feed, spells the
/// text that is appended.
pub proof fn lemma_written_lines()
    ensures
        !hides("Hidden=false"@),
        !turns_gnome_flag_off("Hidden=false"@),
        !sets_gnome_flag_on("Hidden=false"@),
        !hides("X-GNOME-Autostart-enabled=true"@),
        !turns_gnome_flag_off("X-GNOME-Autostart-enabled=true"@),
        sets_gnome_flag_on("X-GNOME-Autostart-enabled=true"@),
        !hides(Seq::<char>::empty()),
        !turns_gnome_flag_off(Seq::<char>::empty()),
        "Hidden=false\n"@ == "Hidden=false"@ + "\n"@,
        "X-GNOME-Autostart-enabled=true\n"@ == "X-GNOME-Autostart-enabled=true"@ + "\n"@,
        "\n"@ == seq!['\n'],
        no_line_feed("Hidden=false"@),
        no_line_feed("X-GNOME-Autostart-enabled=true"@),
        strip_cr("Hidden=false"@) == "Hidden=false"@,
        strip_cr("X-GNOME-Autostart-enabled=true"@) == "X-GNOME-Autostart-enabled=true"@,
{
    reveal_strlit("Hidden=false");
    reveal_strlit("Hidden=false\n");
    reveal_strlit("Hidden=true");
    reveal_strlit("X-GNOME-Autostart-enabled=true");
    reveal_strlit("X-GNOME-Autostart-enabled=true\n");
    reveal_strlit("X-GNOME-Autostart-enabled=false");
    reveal_strlit("\n");
    let h = "Hidden=false"@;
    let f = "X-GNOME-Autostart-enabled=true"@;
    lemma_trim_of_unpadded(h);
    lemma_trim_of_unpadded(f);
    assert(eq_ignore_ascii_case(f, f));
    assert(trim(Seq::<char>::empty()) =~= Seq::<char>::empty());
    assert("Hidden=false\n"@ =~= h + "\n"@);
    assert("X-GNOME-Autostart-enabled=true\n"@ =~= f + "\n"@);
    assert("\n"@ =~= seq!['\n']);
}

/// A copied desktop entry made fit for autostart: every line as copied (see
/// `copied_line`: unhidden, the GNOME flag switched on) and ended by a line
/// feed, with `X-GNOME-Autostart-enabled=true` appended unless a copied line
/// already carries it.
pub open spec fn with_autostart_flags(contents: Seq<char>) -> Seq<char> {
    let (out, has_flag) = flag_scan(lines(contents));
    if has_flag {
        out
    } else {
        let ended = if out.len() > 0 && out.last() == '\n' {
            out
        } else {
            out + "\n"@
        };
        ended + "X-GNOME-Autostart-enabled=true\n"@
    }
}

/// Marks a copied entry as autostart-suitable (see `with_autostart_flags`):
/// `Hidden=true` becomes `Hidden=false`, `X-GNOME-Autostart-enabled=false`
/// becomes `X-GNOME-Autostart-enabled=true`, other lines are kept, and the
/// GNOME flag is appended when no line carries it.
pub fn ensure_autostart_flags(contents: &str) -> (r: String)
    ensures
        r@ == with_autostart_flags(contents@),
{
    let text = chars_of(contents);
    let ls = lines_of(&text);
    let ghost all = views(ls@);
    let hidden = chars_of("Hidden=true");
    let gnome_on = chars_of("X-GNOME-Autostart-enabled=true");
    let gnome_off = chars_of("X-GNOME-Autostart-enabled=false");
    let mut out: Vec<char> = Vec::new();
    let mut has_flag = false;
    let mut i: usize = 0;
    while i < ls.len()
        invariant
            i <= ls.len(),
            all == views(ls@),
            all == lines(contents@),
            hidden@ == "Hidden=true"@,
            gnome_on@ == "X-GNOME-Autostart-enabled=true"@,
            gnome_off@ == "X-GNOME-Autostart-enabled=false"@,
            flag_scan(all.take(i as int)) == (out@, has_flag),
        decreases ls.len() - i,
    {
        assert(all.take(i + 1).drop_last() =~= all.take(i as int));
        assert(all.take(i + 1).last() == ls@[i as int]@);
        proof {
            lemma_written_lines();
        }
        let t = trimmed(&ls[i]);
        if equal_ignoring_ascii_case(&t, &hidden) {
            push_str(&mut out, "Hidden=false\n");
        } else if equal_ignoring_ascii_case(&t, &gnome_off) {
            push_str(&mut out, "X-GNOME-Autostart-enabled=true\n");
            has_flag = true;
        } else {
            has_flag = has_flag || equal_ignoring_ascii_case(&t, &gnome_on);
            push_all(&mut out, &ls[i]);
            push_str(&mut out, "\n");
        }
        i += 1;
    }
    assert(all.take(i as int) =~= all);
    if !has_flag {
        if !(out.len() > 0 && out[out.len() - 1] == '\n') {
            push_str(&mut out, "\n");
        }
        push_str(&mut out, "X-GNOME-Autostart-enabled=true\n");
    }
    string_of(&out)
}

/// The entry written when no installed entry can be copied, for a program
/// started by `exec`.
pub open spec fn generated_entry(exec: Seq<char>) -> Seq<char> {
    "[Desktop Entry]\nType=Application\nName=Application Priority Setter\nComment=View running applications and change their CPU priority\nExec="@
        + exec
        + "\nIcon=utilities-system-monitor\nTerminal=false\nCategories=System;Utility;\nX-GNOME-Autostart-enabled=true\n"@
}

/// The text of the autostart entry: the installed entry made fit for
/// autostart when there is one, else a generated entry that runs `exec`.
pub open spec fn autostart_entry(installed: Option<Seq<char>>, exec: Seq<char>) -> Seq<char> {
    match installed {
        Some(c) => with_autostart_flags(c),
        None => generated_entry(exec),
    }
}

/// The text of the autostart entry (see `autostart_entry`).
pub fn entry_contents(installed: Option<&str>, exec: &str) -> (r: String)
    ensures
        r@ == autostart_entry(installed.deep_view(), exec@),
{
    match installed {
        Some(c) => ensure_autostart_flags(c),
        None => {
            let mut out = chars_of(
                "[Desktop Entry]\nType=Application\nName=Application Priority Setter\nComment=View running applications and change their CPU priority\nExec=",
            );
            push_str(&mut out, exec);
            push_str(
                &mut out,
                "\nIcon=utilities-system-monitor\nTerminal=false\nCategories=System;Utility;\nX-GNOME-Autostart-enabled=true\n",
            );
            string_of(&out)
        },
    }
}

/// Whether the text of an installed file is a desktop entry worth copying.
pub fn is_installed_entry(contents: &str) -> (r: bool)
    ensures
        r == contains(contents@, "[Desktop Entry]"@),
{
    has_substring(&chars_of(contents), &chars_of("[Desktop Entry]"))
}

/// The directories searched for the installed entry, in order: the user's
/// applications and Flatpak export directories (when `HOME` is set), the
/// `applications` directory of each `XDG_DATA_DIRS` entry (else of
/// `/usr/local/share` and `/usr/share`), then the system Flatpak exports.
pub open spec fn system_application_dirs_spec(home: Option<Seq<char>>, data_dirs: Option<Seq<Seq<char>>>) -> Seq<Seq<char>> {
    let user = match home {
        Some(h) => seq![
            joined(h, ".local/share/applications"@),
            joined(h, ".local/share/flatpak/exports/share/applications"@),
        ],
        None => Seq::empty(),
    };
    let system = match data_dirs {
        Some(d) => d.map_values(|x: Seq<char>| joined(x, "applications"@)),
        None => seq!["/usr/local/share/applications"@, "/usr/share/applications"@],
    };
    user + system + seq!["/var/lib/flatpak/exports/share/applications"@]
}

/// The directories searched for the installed entry, given `HOME` and
/// `XDG_DATA_DIRS` split into paths.
pub fn system_application_dirs(home: Option<&str>, data_dirs: Option<&Vec<String>>) -> (r: Vec<String>)
    ensures
        string_views(r@) == system_application_dirs_spec(
            home.deep_view(),
            match data_dirs {
                Some(d) => Some(string_views(d@)),
                None => None,
            },
        ),
{
    let ghost want = system_application_dirs_spec(
        home.deep_view(),
        match data_dirs {
            Some(d) => Some(string_views(d@)),
            None => None,
        },
    );
    let mut dirs: Vec<Vec<char>> = Vec::new();
    match home {
        Some(h) => {
            let base = chars_of(h);
            dirs.push(join_path(&base, ".local/share/applications"));
            dirs.push(join_path(&base, ".local/share/flatpak/exports/share/applications"));
        },
        None => {},
    }
    let ghost user = views(dirs@);
    match data_dirs {
        Some(d) => {
            let given = strings_to_chars(d);
            let ghost joined_given = views(given@).map_values(|x: Seq<char>| joined(x, "applications"@));
            let mut k: usize = 0;
            while k < given.len()
                invariant
                    k <= given.len(),
                    joined_given == views(given@).map_values(|x: Seq<char>| joined(x, "applications"@)),
                    views(dirs@) == user + joined_given.take(k as int),
                decreases given.len() - k,
            {
                let c = join_path(&given[k], "applications");
                assert(views(given@)[k as int] == given@[k as int]@);
                proof {
                    lemma_views_push(dirs@, c);
                }
                dirs.push(c);
                assert(joined_given.take(k + 1) =~= joined_given.take(k as int).push(joined_given[k as int]));
                k += 1;
            }
            assert(joined_given.take(k as int) =~= joined_given);
        },
        None => {
            let a = chars_of("/usr/local/share/applications");
            proof {
                lemma_views_push(dirs@, a);
            }
            dirs.push(a);
            let b = chars_of("/usr/share/applications");
            proof {
                lemma_views_push(dirs@, b);
            }
            dirs.push(b);
        },
    }
    let c = chars_of("/var/lib/flatpak/exports/share/applications");
    proof {
        lemma_views_push(dirs@, c);
    }
    dirs.push(c);
    assert(views(dirs@) =~= want);
    chars_to_strings(&dirs)
}


// ---------------------------------------------------------------------------
// Laws.
// ---------------------------------------------------------------------------

/// Lemma: the copied lines, each ended by a line feed, read back as those
/// lines (without a carriage return that ended one).
proof fn lemma_flag_scan_lines(ls: Seq<Seq<char>>)
    requires
        forall|j: int| 0 <= j < ls.len() ==> no_line_feed(#[trigger] ls[j]),
    ensures
        flag_scan(ls).0.len() == 0 || flag_scan(ls).0.last() == '\n',
        flag_scan(ls).0.len() == 0 <==> ls.len() == 0,
        lines(flag_scan(ls).0) == ls.map_values(|l: Seq<char>| strip_cr(copied_line(l))),
    decreases ls.len(),
{
    if ls.len() == 0 {
        assert(lines(flag_scan(ls).0) =~= Seq::<Seq<char>>::empty());
        assert(ls.map_values(|l: Seq<char>| strip_cr(copied_line(l))) =~= Seq::<Seq<char>>::empty());
    } else {
        let init = ls.drop_last();
        assert forall|j: int| 0 <= j < init.len() implies no_line_feed(#[trigger] init[j]) by {
            assert(init[j] == ls[j]);
        }
        lemma_flag_scan_lines(init);
        lemma_written_lines();
        let out = flag_scan(init).0;
        let line = ls.last();
        let piece = copied_line(line);
        assert(no_line_feed(ls[ls.len() - 1]));
        assert(no_line_feed(piece));
        assert(flag_scan(ls).0 =~= out + (piece + seq!['\n']));
        lemma_lines_append(out, piece + seq!['\n']);
        lemma_lines_one(piece);
        assert(lines(flag_scan(ls).0) =~= ls.map_values(
            |l: Seq<char>| strip_cr(copied_line(l)),
        ));
    }
}

/// Lemma: a copied line, read back, does not switch autostart off.
proof fn lemma_copied_line_keeps_enabled(line: Seq<char>)
    ensures
        !disables(strip_cr(copied_line(line))),
{
    lemma_written_lines();
    if !hides(line) && !turns_gnome_flag_off(line) {
        lemma_trim_of_strip_cr(line);
    }
}

/// Lemma: a line written by this library that does not switch autostart off.
proof fn lemma_fixed_line_keeps_enabled(t: Seq<char>)
    requires
        t.len() > 0,
        !is_space(t[0]),
        !is_space(t.last()),
        t.len() != 11,
        t.len() != 31,
    ensures
        !disables(t),
{
    reveal_strlit("Hidden=true");
    reveal_strlit("X-GNOME-Autostart-enabled=false");
    lemma_trim_of_unpadded(t);
}

/// Lemma: whether the copied lines carry the GNOME flag.
proof fn lemma_flag_scan_flag(ls: Seq<Seq<char>>)
    ensures
        flag_scan(ls).1 <==> exists|j: int|
            0 <= j < ls.len() && sets_gnome_flag_on(copied_line(#[trigger] ls[j])),
    decreases ls.len(),
{
    if ls.len() > 0 {
        let init = ls.drop_last();
        lemma_flag_scan_flag(init);
        if flag_scan(init).1 {
            let j = choose|j: int|
                0 <= j < init.len() && sets_gnome_flag_on(copied_line(#[trigger] init[j]));
            assert(ls[j] == init[j]);
        }
        if exists|j: int| 0 <= j < ls.len() && sets_gnome_flag_on(copied_line(#[trigger] ls[j])) {
            let j = choose|j: int| 0 <= j < ls.len() && sets_gnome_flag_on(copied_line(#[trigger] ls[j]));
            if j < ls.len() - 1 {
                assert(init[j] == ls[j]);
            }
        }
    }
}

/// Lemma: the lines of a copied entry made fit for autostart: each line of
/// the entry as copied (see `copied_line`), then the GNOME flag unless a
/// copied line already carries it (after an empty line when the entry was
/// empty).
proof fn lemma_flagged_lines(c: Seq<char>)
    ensures
        ({
            let ls = lines(c);
            let kept = ls.map_values(|l: Seq<char>| strip_cr(copied_line(l)));
            let flag = "X-GNOME-Autostart-enabled=true"@;
            lines(with_autostart_flags(c)) == if flag_scan(ls).1 {
                kept
            } else if ls.len() == 0 {
                seq![Seq::<char>::empty(), flag]
            } else {
                kept.push(flag)
            }
        }),
{
    let ls = lines(c);
    lemma_lines_have_no_line_feed(c);
    lemma_flag_scan_lines(ls);
    lemma_written_lines();
    let out = flag_scan(ls).0;
    let kept = ls.map_values(|l: Seq<char>| strip_cr(copied_line(l)));
    let flag = "X-GNOME-Autostart-enabled=true"@;
    lemma_lines_one(flag);
    if !flag_scan(ls).1 {
        let ended = if out.len() > 0 && out.last() == '\n' {
            out
        } else {
            out + "\n"@
        };
        lemma_lines_append(ended, flag + seq!['\n']);
        if ended == out {
            assert(lines(ended + (flag + seq!['\n'])) =~= kept.push(flag));
        } else {
            assert(out.len() == 0);
            assert(ended =~= Seq::<char>::empty() + seq!['\n']);
            lemma_lines_one(Seq::<char>::empty());
            assert(strip_cr(Seq::<char>::empty()) =~= Seq::<char>::empty());
            assert(lines(ended + (flag + seq!['\n'])) =~= seq![Seq::<char>::empty(), flag]);
        }
        assert(with_autostart_flags(c) =~= ended + (flag + seq!['\n']));
    }
}

/// Turning autostart on and reading it back gives "on": the entry that
/// enabling writes reads as enabled, unless it is generated for a program
/// path whose line feeds make a line that switches autostart off (see
/// `law_generated_entry_reads_enabled`). Turning it off removes the entry,
/// and a missing entry reads as disabled.
pub proof fn law_enabled_entry_reads_enabled(installed: Option<Seq<char>>, exec: Seq<char>)
    requires
        installed is None ==> forall|i: int|
            0 <= i < exec_lines(exec).len() ==> !disables(#[trigger] exec_lines(exec)[i]),
    ensures
        enabled_by(Some(autostart_entry(installed, exec))),
        !enabled_by(None),
{
    match installed {
        Some(c) => {
            let ls = lines(c);
            lemma_flagged_lines(c);
            let kept = ls.map_values(|l: Seq<char>| strip_cr(copied_line(l)));
            assert forall|i: int| 0 <= i < kept.len() implies !disables(#[trigger] kept[i]) by {
                lemma_copied_line_keeps_enabled(ls[i]);
            }
            lemma_written_lines();
        },
        None => {
            law_generated_entry_reads_enabled(exec);
        },
    }
}

/// A copied entry made fit for autostart is unhidden and flagged: none of
/// its lines reads `Hidden=true` or `X-GNOME-Autostart-enabled=false`, one
/// reads `X-GNOME-Autostart-enabled=true`, and that line is added only when
/// no copied line carries it.
pub proof fn law_copied_entry_is_unhidden_and_flagged(c: Seq<char>)
    ensures
        forall|i: int|
            0 <= i < lines(with_autostart_flags(c)).len() ==> !hides(
                #[trigger] lines(with_autostart_flags(c))[i],
            ) && !turns_gnome_flag_off(lines(with_autostart_flags(c))[i]),
        exists|i: int|
            0 <= i < lines(with_autostart_flags(c)).len() && sets_gnome_flag_on(
                #[trigger] lines(with_autostart_flags(c))[i],
            ),
        (exists|i: int|
            0 <= i < lines(c).len() && sets_gnome_flag_on(copied_line(#[trigger] lines(c)[i])))
            ==> lines(with_autostart_flags(c)).len() == lines(c).len(),
{
    let ls = lines(c);
    let r = lines(with_autostart_flags(c));
    lemma_flagged_lines(c);
    lemma_flag_scan_flag(ls);
    lemma_written_lines();
    let kept = ls.map_values(|l: Seq<char>| strip_cr(copied_line(l)));
    let flag = "X-GNOME-Autostart-enabled=true"@;
    assert forall|i: int| 0 <= i < kept.len() implies !hides(#[trigger] kept[i])
        && !turns_gnome_flag_off(kept[i]) by {
        lemma_trim_of_strip_cr(copied_line(ls[i]));
    }
    assert forall|i: int| 0 <= i < r.len() implies !hides(#[trigger] r[i]) && !turns_gnome_flag_off(
        r[i],
    ) by {
        if i < kept.len() && (flag_scan(ls).1 || ls.len() > 0) {
            assert(r[i] == kept[i]);
        }
    }
    if flag_scan(ls).1 {
        let j = choose|j: int| 0 <= j < ls.len() && sets_gnome_flag_on(copied_line(#[trigger] ls[j]));
        lemma_trim_of_strip_cr(copied_line(ls[j]));
        assert(r[j] == kept[j]);
        assert(sets_gnome_flag_on(r[j]));
    } else if ls.len() == 0 {
        assert(sets_gnome_flag_on(r[1]));
    } else {
        assert(r[kept.len() as int] == flag);
        assert(sets_gnome_flag_on(r[kept.len() as int]));
    }
}

/// The text of the given lines, each followed by a line feed.
pub open spec fn ended_lines(ls: Seq<Seq<char>>) -> Seq<char>
    decreases ls.len(),
{
    if ls.len() == 0 {
        Seq::empty()
    } else {
        ended_lines(ls.drop_last()) + ls.last() + "\n"@
    }
}

/// Lemma: the text of the copied lines is the copied lines, each followed by
/// a line feed.
proof fn lemma_flag_scan_text(ls: Seq<Seq<char>>)
    ensures
        flag_scan(ls).0 == ended_lines(ls.map_values(|l: Seq<char>| copied_line(l))),
    decreases ls.len(),
{
    let k = ls.map_values(|l: Seq<char>| copied_line(l));
    if ls.len() == 0 {
        assert(k =~= Seq::<Seq<char>>::empty());
    } else {
        lemma_flag_scan_text(ls.drop_last());
        assert(k.drop_last() =~= ls.drop_last().map_values(|l: Seq<char>| copied_line(l)));
    }
}

/// Lemma: copying a copied line changes nothing.
proof fn lemma_copied_line_twice(line: Seq<char>)
    ensures
        copied_line(copied_line(line)) == copied_line(line),
{
    lemma_written_lines();
}

/// Making an entry fit for autostart twice is making it fit once, unless a
/// line that is kept as it is ends in a carriage return (`str::lines` keeps a
/// second one, which the next pass would drop); lines that are rewritten
/// (`Hidden=true`, `X-GNOME-Autostart-enabled=false`) may end in one.
pub proof fn law_autostart_flags_idempotent(c: Seq<char>)
    requires
        forall|i: int|
            0 <= i < lines(c).len() && (#[trigger] lines(c)[i]).len() > 0 && lines(c)[i].last()
                == '\r' ==> hides(lines(c)[i]) || turns_gnome_flag_off(lines(c)[i]),
    ensures
        with_autostart_flags(with_autostart_flags(c)) == with_autostart_flags(c),
{
    let ls = lines(c);
    let c2 = with_autostart_flags(c);
    let flag = "X-GNOME-Autostart-enabled=true"@;
    let e = Seq::<char>::empty();
    lemma_written_lines();
    lemma_flagged_lines(c);
    lemma_flag_scan_flag(ls);
    lemma_flag_scan_text(ls);
    lemma_lines_have_no_line_feed(c);
    lemma_flag_scan_lines(ls);
    let k = ls.map_values(|l: Seq<char>| copied_line(l));
    let kept = ls.map_values(|l: Seq<char>| strip_cr(copied_line(l)));
    assert forall|i: int| 0 <= i < ls.len() implies #[trigger] kept[i] == k[i] by {
        if !hides(ls[i]) && !turns_gnome_flag_off(ls[i]) {
            assert(!(ls[i].len() > 0 && ls[i].last() == '\r'));
        }
    }
    assert(kept =~= k);
    let m = if flag_scan(ls).1 {
        k
    } else if ls.len() == 0 {
        seq![e, flag]
    } else {
        k.push(flag)
    };
    assert(lines(c2) == m);
    if flag_scan(ls).1 {
    } else if ls.len() == 0 {
        assert(seq![e, flag].drop_last() =~= seq![e]);
        assert(seq![e].drop_last() =~= Seq::<Seq<char>>::empty());
        assert(ended_lines(seq![e]) =~= "\n"@);
        assert(c2 =~= ended_lines(m));
    } else {
        assert(k.push(flag).drop_last() =~= k);
        assert(c2 =~= ended_lines(m));
    }
    assert(c2 == ended_lines(m));
    assert forall|i: int| 0 <= i < m.len() implies copied_line(#[trigger] m[i]) == m[i] by {
        if i < k.len() && (flag_scan(ls).1 || ls.len() > 0) {
            lemma_copied_line_twice(ls[i]);
        }
    }
    assert(m.map_values(|l: Seq<char>| copied_line(l)) =~= m);
    lemma_flag_scan_text(m);
    lemma_flag_scan_flag(m);
    if flag_scan(ls).1 {
        let j = choose|j: int| 0 <= j < ls.len() && sets_gnome_flag_on(copied_line(#[trigger] ls[j]));
        lemma_copied_line_twice(ls[j]);
        assert(sets_gnome_flag_on(copied_line(m[j])));
    } else {
        assert(sets_gnome_flag_on(copied_line(m[m.len() - 1])));
    }
}

/// Lemma: a line of a generated entry that starts with `Exec=` does not
/// switch autostart off.
proof fn lemma_exec_line_keeps_enabled(line: Seq<char>)
    requires
        line.len() > 0,
        line[0] == 'E',
    ensures
        !disables(strip_cr(line)),
{
    reveal_strlit("Hidden=true");
    reveal_strlit("X-GNOME-Autostart-enabled=false");
    let t = strip_cr(line);
    if line.len() > 1 && line.last() == '\r' {
        lemma_trim_without_final_space(line);
    }
    if line.len() == 1 {
        assert(t == line);
    }
    assert(t[0] == 'E');
    lemma_trim_keeps_first(t);
    let u = trim(t);
    let h = "Hidden=true"@;
    let g = "X-GNOME-Autostart-enabled=false"@;
    if eq_ignore_ascii_case(u, h) {
        assert(crate::text::ascii_lower(u[0]) == crate::text::ascii_lower(h[0]));
    }
    if eq_ignore_ascii_case(u, g) {
        assert(crate::text::ascii_lower(u[0]) == crate::text::ascii_lower(g[0]));
    }
}

/// The lines that the `Exec` line of a generated entry for `exec` reads as
/// (more than one when the program path holds line feeds).
pub open spec fn exec_lines(exec: Seq<char>) -> Seq<Seq<char>> {
    lines("Exec="@ + exec + "\n"@)
}

/// A generated entry opens with the `[Desktop Entry]` line and ends with
/// `X-GNOME-Autostart-enabled=true`; it reads as enabled exactly when none
/// of the lines its `Exec` line reads as switches autostart off, so it does
/// for a program path without line feeds.
pub proof fn law_generated_entry_reads_enabled(exec: Seq<char>)
    ensures
        lines(generated_entry(exec)).len() > 0,
        lines(generated_entry(exec))[0] == "[Desktop Entry]"@,
        lines(generated_entry(exec)).last() == "X-GNOME-Autostart-enabled=true"@,
        enabled_by(Some(generated_entry(exec))) <==> forall|i: int|
            0 <= i < exec_lines(exec).len() ==> !disables(#[trigger] exec_lines(exec)[i]),
        no_line_feed(exec) ==> enabled_by(Some(generated_entry(exec))),
{
    let nl = seq!['\n'];
    let l1 = "[Desktop Entry]"@;
    let l2 = "Type=Application"@;
    let l3 = "Name=Application Priority Setter"@;
    let l4 = "Comment=View running applications and change their CPU priority"@;
    let l6 = "Icon=utilities-system-monitor"@;
    let l7 = "Terminal=false"@;
    let l8 = "Categories=System;Utility;"@;
    let l9 = "X-GNOME-Autostart-enabled=true"@;
    let head = "Exec="@;
    reveal_strlit("[Desktop Entry]");
    reveal_strlit("Type=Application");
    reveal_strlit("Name=Application Priority Setter");
    reveal_strlit("Comment=View running applications and change their CPU priority");
    reveal_strlit("Icon=utilities-system-monitor");
    reveal_strlit("Terminal=false");
    reveal_strlit("Categories=System;Utility;");
    reveal_strlit("X-GNOME-Autostart-enabled=true");
    reveal_strlit("Exec=");
    reveal_strlit(
        "[Desktop Entry]\nType=Application\nName=Application Priority Setter\nComment=View running applications and change their CPU priority\nExec=",
    );
    reveal_strlit(
        "\nIcon=utilities-system-monitor\nTerminal=false\nCategories=System;Utility;\nX-GNOME-Autostart-enabled=true\n",
    );
    lemma_written_lines();
    let p0 = l1 + nl + (l2 + nl + (l3 + nl + (l4 + nl)));
    let q = l6 + nl + (l7 + nl + (l8 + nl + (l9 + nl)));
    let e = head + exec;
    assert("[Desktop Entry]\nType=Application\nName=Application Priority Setter\nComment=View running applications and change their CPU priority\nExec="@
        =~= p0 + head);
    assert("\nIcon=utilities-system-monitor\nTerminal=false\nCategories=System;Utility;\nX-GNOME-Autostart-enabled=true\n"@
        =~= nl + q);
    assert(generated_entry(exec) =~= p0 + ((e + nl) + q));
    assert(exec_lines(exec) == lines(e + nl));
    assert(no_line_feed(l1));
    assert(no_line_feed(l2));
    assert(no_line_feed(l3));
    assert(no_line_feed(l4));
    assert(no_line_feed(l6));
    assert(no_line_feed(l7));
    assert(no_line_feed(l8));
    assert(no_line_feed(l9));
    lemma_lines_one(l4);
    lemma_lines_cons(l3, l4 + nl);
    lemma_lines_cons(l2, l3 + nl + (l4 + nl));
    lemma_lines_cons(l1, l2 + nl + (l3 + nl + (l4 + nl)));
    lemma_lines_one(l9);
    lemma_lines_cons(l8, l9 + nl);
    lemma_lines_cons(l7, l8 + nl + (l9 + nl));
    lemma_lines_cons(l6, l7 + nl + (l8 + nl + (l9 + nl)));
    lemma_lines_append(e + nl, q);
    lemma_lines_append(p0, (e + nl) + q);
    lemma_fixed_line_keeps_enabled(l1);
    lemma_fixed_line_keeps_enabled(l2);
    lemma_fixed_line_keeps_enabled(l3);
    lemma_fixed_line_keeps_enabled(l4);
    lemma_fixed_line_keeps_enabled(l6);
    lemma_fixed_line_keeps_enabled(l7);
    lemma_fixed_line_keeps_enabled(l8);
    lemma_fixed_line_keeps_enabled(l9);
    assert(strip_cr(l1) == l1);
    assert(strip_cr(l2) == l2);
    assert(strip_cr(l3) == l3);
    assert(strip_cr(l4) == l4);
    assert(strip_cr(l6) == l6);
    assert(strip_cr(l7) == l7);
    assert(strip_cr(l8) == l8);
    assert(strip_cr(l9) == l9);
    let x = lines(e + nl);
    let front = seq![l1, l2, l3, l4];
    let back = seq![l6, l7, l8, l9];
    let all = lines(generated_entry(exec));
    assert(all =~= front + x + back);
    assert(all[0] == l1);
    assert(all.last() == l9);
    assert forall|j: int| 0 <= j < front.len() implies !disables(#[trigger] front[j]) by {}
    assert forall|j: int| 0 <= j < back.len() implies !disables(#[trigger] back[j]) by {}
    if forall|i: int| 0 <= i < x.len() ==> !disables(#[trigger] x[i]) {
        assert forall|j: int| 0 <= j < all.len() implies !disables(#[trigger] all[j]) by {
            if j < 4 {
                assert(all[j] == front[j]);
            } else if j < 4 + x.len() {
                assert(all[j] == x[j - 4]);
            } else {
                assert(all[j] == back[j - 4 - x.len()]);
            }
        }
    }
    if enabled_by(Some(generated_entry(exec))) {
        assert forall|i: int| 0 <= i < x.len() implies !disables(#[trigger] x[i]) by {
            assert(all[i + 4] == x[i]);
        }
    }
    if no_line_feed(exec) {
        assert(no_line_feed(e)) by {
            assert forall|k: int| 0 <= k < e.len() implies e[k] != '\n' by {
                if k >= head.len() {
                    assert(e[k] == exec[k - head.len()]);
                }
            }
        }
        lemma_lines_one(e);
        lemma_exec_line_keeps_enabled(e);
        assert(x =~= seq![strip_cr(e)]);
        assert forall|i: int| 0 <= i < x.len() implies !disables(#[trigger] x[i]) by {
            assert(x[i] == strip_cr(e));
        }
    }
}

} // verus!
