//! Startup applications: XDG autostart entries and systemd units, how they are
//! read, ordered and switched on or off.

use vstd::prelude::*;

use crate::sorting::{
    is_permutation, lemma_lex_le_total, lemma_lex_le_trans, lex_le, lex_le_exec, permuted,
    stable_order, OrderKey,
};
use crate::unicode::{lowercase, to_lowercase};
use crate::desktop::{entry_pairs, entry_value, entry_values, is_comment, is_header, last_value, opt_view, scan, scan_step};
use crate::icons::{copy_chars, strings_of};
use crate::path::{file_name, path_file_name, path_join, path_join_chars};
use crate::text::{
    count_char, is_digit, is_whitespace, is_ws, lemma_trim_start_shape, slice_chars, trim_start,
    trim_start_index,
    append_new, append_new_exec, ends_with_str, find, lemma_find_at, lemma_find_spec, lemma_trim_start_skip,
    law_append_new, rsplit_once, rsplit_once_chars, split_once, strip_cr, trim_end,
    split_words, words, append_str, chars_eq_str, chars_of, chars_of_string, join, join_chars, lines, split_lines,
    starts_with_str, string_of, string_views, trim, trim_chars, views,
};

verus! {

/// Where a startup entry comes from.
#[derive(Clone, Copy, Debug, Default, PartialEq, Eq, Structural)]
pub enum StartupSource {
    #[default]
    UserAutostart,
    SystemAutostart,
    SystemdSystem,
    SystemdUser,
}

/// One startup application or unit.
pub struct StartupEntry {
    pub source: StartupSource,
    pub path: String,
    pub name: String,
    pub command: String,
    pub comment: String,
    pub icon: String,
    pub enabled: bool,
    pub boot_time_ms: Option<u64>,
    pub critical: bool,
}

/// The text of a startup entry.
pub struct StartupRecord {
    pub source: StartupSource,
    pub path: Seq<char>,
    pub name: Seq<char>,
    pub command: Seq<char>,
    pub comment: Seq<char>,
    pub icon: Seq<char>,
    pub enabled: bool,
    pub boot_time_ms: Option<u64>,
    pub critical: bool,
}

impl View for StartupEntry {
    type V = StartupRecord;

    open spec fn view(&self) -> StartupRecord {
        StartupRecord {
            source: self.source,
            path: self.path@,
            name: self.name@,
            command: self.command@,
            comment: self.comment@,
            icon: self.icon@,
            enabled: self.enabled,
            boot_time_ms: self.boot_time_ms,
            critical: self.critical,
        }
    }
}

impl StartupEntry {
    /// A copy of the entry.
    pub fn copy(&self) -> (r: Self)
        ensures
            r@ == self@,
    {
        StartupEntry {
            source: self.source,
            path: self.path.clone(),
            name: self.name.clone(),
            command: self.command.clone(),
            comment: self.comment.clone(),
            icon: self.icon.clone(),
            enabled: self.enabled,
            boot_time_ms: self.boot_time_ms,
            critical: self.critical,
        }
    }
}

/// The views of a list of entries.
pub open spec fn entry_records(v: Seq<StartupEntry>) -> Seq<StartupRecord> {
    v.map_values(|e: StartupEntry| e@)
}

// ---------------------------------------------------------------------------
// Autostart files
// ---------------------------------------------------------------------------

/// The value a desktop file gives `key`, or nothing.
pub open spec fn value_or_empty(content: Seq<char>, key: Seq<char>) -> Seq<char> {
    match entry_value(content, key) {
        Some(v) => v,
        None => seq![],
    }
}

/// An autostart file starts its program unless it says `Hidden=true` or
/// `X-GNOME-Autostart-enabled` is other than `true`.
pub open spec fn autostart_enabled(content: Seq<char>) -> bool {
    let hidden = entry_value(content, "Hidden"@) == Some("true"@);
    let gnome = match entry_value(content, "X-GNOME-Autostart-enabled"@) {
        Some(v) => v == "true"@,
        None => true,
    };
    !hidden && gnome
}

/// The entry that an autostart file stands for.
pub open spec fn autostart_record(content: Seq<char>, path: Seq<char>, source: StartupSource) -> StartupRecord {
    StartupRecord {
        source,
        path,
        name: value_or_empty(content, "Name"@),
        command: value_or_empty(content, "Exec"@),
        comment: value_or_empty(content, "Comment"@),
        icon: value_or_empty(content, "Icon"@),
        enabled: autostart_enabled(content),
        boot_time_ms: None,
        critical: false,
    }
}

fn value_string(v: &Option<Vec<char>>) -> (r: String)
    ensures
        r@ == (match opt_view(*v) {
            Some(x) => x,
            None => Seq::<char>::empty(),
        }),
{
    match v {
        Some(x) => string_of(x),
        None => string_of(&Vec::new()),
    }
}

/// The startup entry that the autostart file at `path` with text `content`
/// stands for.
pub fn parse_autostart(content: &str, path: &str, source: StartupSource) -> (r: StartupEntry)
    ensures
        r@ == autostart_record(content@, path@, source),
{
    let c = chars_of(content);
    let keys = vec![
        chars_of("Hidden"),
        chars_of("X-GNOME-Autostart-enabled"),
        chars_of("Name"),
        chars_of("Exec"),
        chars_of("Comment"),
        chars_of("Icon"),
    ];
    let vals = entry_values(&c, &keys);
    assert(opt_view(vals@[0]) == entry_value(c@, "Hidden"@));
    assert(opt_view(vals@[1]) == entry_value(c@, "X-GNOME-Autostart-enabled"@));
    assert(opt_view(vals@[2]) == entry_value(c@, "Name"@));
    assert(opt_view(vals@[3]) == entry_value(c@, "Exec"@));
    assert(opt_view(vals@[4]) == entry_value(c@, "Comment"@));
    assert(opt_view(vals@[5]) == entry_value(c@, "Icon"@));
    let hidden = match &vals[0] {
        Some(h) => chars_eq_str(h, "true"),
        None => false,
    };
    let gnome = match &vals[1] {
        Some(g) => chars_eq_str(g, "true"),
        None => true,
    };
    StartupEntry {
        source,
        path: string_of(&chars_of(path)),
        name: value_string(&vals[2]),
        command: value_string(&vals[3]),
        comment: value_string(&vals[4]),
        icon: value_string(&vals[5]),
        enabled: !hidden && gnome,
        boot_time_ms: None,
        critical: false,
    }
}

// ---------------------------------------------------------------------------
// Switching an autostart file on or off
// ---------------------------------------------------------------------------

/// `true` or `false`.
pub open spec fn bool_text(b: bool) -> Seq<char> {
    if b {
        "true"@
    } else {
        "false"@
    }
}

/// The `Hidden=` line that switches an entry to `enabled`.
pub open spec fn hidden_line(enabled: bool) -> Seq<char> {
    "Hidden="@ + bool_text(!enabled)
}

/// The `X-GNOME-Autostart-enabled=` line for `enabled`.
pub open spec fn gnome_line(enabled: bool) -> Seq<char> {
    "X-GNOME-Autostart-enabled="@ + bool_text(enabled)
}

/// One line of the rewrite: the state is whether the line is in a
/// `[Desktop Entry]` group, whether a `Hidden=` line was written, and the
/// lines written. Closing a `[Desktop Entry]` group that has no `Hidden=` line
/// yet adds one; inside such a group, `Hidden=` and
/// `X-GNOME-Autostart-enabled=` lines are replaced; every other line stays.
pub open spec fn toggle_step(
    st: (bool, bool, Seq<Seq<char>>),
    line: Seq<char>,
    enabled: bool,
) -> (bool, bool, Seq<Seq<char>>) {
    let t = trim(line);
    if is_header(t) {
        let add = st.0 && !st.1;
        (
            t == "[Desktop Entry]"@,
            st.1 || add,
            (if add {
                st.2.push(hidden_line(enabled))
            } else {
                st.2
            }).push(line),
        )
    } else if st.0 && "Hidden="@.is_prefix_of(t) {
        (st.0, true, st.2.push(hidden_line(enabled)))
    } else if st.0 && "X-GNOME-Autostart-enabled="@.is_prefix_of(t) {
        (st.0, st.1, st.2.push(gnome_line(enabled)))
    } else {
        (st.0, st.1, st.2.push(line))
    }
}

/// The rewrite state after the given lines.
pub open spec fn toggle_state(ls: Seq<Seq<char>>, enabled: bool) -> (bool, bool, Seq<Seq<char>>)
    decreases ls.len(),
{
    if ls.len() == 0 {
        (false, false, seq![])
    } else {
        toggle_step(toggle_state(ls.drop_last(), enabled), ls.last(), enabled)
    }
}

/// The lines of an autostart file switched to `enabled`: a `[Desktop Entry]`
/// group still open at the end without a `Hidden=` line gets one.
pub open spec fn toggled_lines(ls: Seq<Seq<char>>, enabled: bool) -> Seq<Seq<char>> {
    let st = toggle_state(ls, enabled);
    if st.0 && !st.1 {
        st.2.push(hidden_line(enabled))
    } else {
        st.2
    }
}

/// The text of an autostart file switched to `enabled`, lines joined by `\n`.
pub open spec fn toggled_text(content: Seq<char>, enabled: bool) -> Seq<char> {
    join(toggled_lines(lines(content), enabled), "\n"@)
}

fn bool_chars(b: bool) -> (r: Vec<char>)
    ensures
        r@ == bool_text(b),
{
    if b {
        chars_of("true")
    } else {
        chars_of("false")
    }
}

fn hidden_line_exec(enabled: bool) -> (r: Vec<char>)
    ensures
        r@ == hidden_line(enabled),
{
    let mut r = chars_of("Hidden=");
    let b = bool_chars(!enabled);
    crate::text::append_chars(&mut r, &b);
    r
}

fn gnome_line_exec(enabled: bool) -> (r: Vec<char>)
    ensures
        r@ == gnome_line(enabled),
{
    let mut r = chars_of("X-GNOME-Autostart-enabled=");
    let b = bool_chars(enabled);
    crate::text::append_chars(&mut r, &b);
    r
}

/// The text of an autostart file switched on or off, as written back.
pub fn toggle_autostart(content: &str, enabled: bool) -> (r: String)
    ensures
        r@ == toggled_text(content@, enabled),
{
    let ls = split_lines(&chars_of(content));
    let ghost vls = views(ls@);
    let mut in_main = false;
    let mut wrote_hidden = false;
    let mut out: Vec<Vec<char>> = Vec::new();
    let mut i: usize = 0;
    assert(vls.take(0) =~= Seq::<Seq<char>>::empty());
    assert(views(out@) =~= Seq::<Seq<char>>::empty());
    while i < ls.len()
        invariant
            vls == views(ls@),
            i <= ls.len(),
            toggle_state(vls.take(i as int), enabled) == (in_main, wrote_hidden, views(out@)),
        decreases ls.len() - i,
    {
        assert(vls.take(i + 1).drop_last() =~= vls.take(i as int));
        assert(vls.take(i + 1).last() == ls@[i as int]@);
        let line = &ls[i];
        let t = trim_chars(line);
        let ghost before = views(out@);
        if t.len() > 0 && t[0] == '[' {
            let add = in_main && !wrote_hidden;
            if add {
                out.push(hidden_line_exec(enabled));
                wrote_hidden = true;
            }
            in_main = chars_eq_str(&t, "[Desktop Entry]");
            let ghost mid = views(out@);
            out.push(copy_chars(line));
            proof {
                assert(views(out@) =~= mid.push(line@));
                if add {
                    assert(mid =~= before.push(hidden_line(enabled)));
                } else {
                    assert(mid =~= before);
                }
            }
        } else if in_main && starts_with_str(&t, "Hidden=") {
            out.push(hidden_line_exec(enabled));
            wrote_hidden = true;
            assert(views(out@) =~= before.push(hidden_line(enabled)));
        } else if in_main && starts_with_str(&t, "X-GNOME-Autostart-enabled=") {
            out.push(gnome_line_exec(enabled));
            assert(views(out@) =~= before.push(gnome_line(enabled)));
        } else {
            out.push(copy_chars(line));
            assert(views(out@) =~= before.push(line@));
        }
        i += 1;
    }
    assert(vls.take(ls.len() as int) =~= vls);
    if in_main && !wrote_hidden {
        let ghost before = views(out@);
        out.push(hidden_line_exec(enabled));
        assert(views(out@) =~= before.push(hidden_line(enabled)));
    }
    let text = join_chars(&out, &chars_of("\n"));
    string_of(&text)
}

// ---------------------------------------------------------------------------
// What switching an entry does
// ---------------------------------------------------------------------------

/// What the caller does to switch an entry: rewrite its autostart file, or run
/// `systemctl` with the given arguments.
pub enum ToggleAction {
    EditAutostartFile,
    RunSystemctl(Vec<String>),
}

/// The message given for a protected unit.
pub open spec fn protected_message() -> Seq<char> {
    "This unit is managed by systemd dependencies (static/generated) and cannot be disabled directly."@
}

/// The `systemctl` arguments that enable or disable a unit.
pub open spec fn systemctl_toggle_args(source: StartupSource, exec: Seq<char>, enabled: bool) -> Seq<Seq<char>> {
    (if source == StartupSource::SystemdUser {
        seq!["--user"@]
    } else {
        seq![]
    }) + seq![
        if enabled {
            "enable"@
        } else {
            "disable"@
        },
        exec,
    ]
}

/// How to switch an entry on or off. Protected units are refused; autostart
/// entries are switched in their file; systemd units through `systemctl
/// enable` or `disable`.
pub fn set_enabled(entry: &StartupEntry, enabled: bool) -> (r: Result<ToggleAction, String>)
    ensures
        match r {
            Err(m) => entry.critical && m@ == protected_message(),
            Ok(ToggleAction::EditAutostartFile) => !entry.critical && (entry.source
                == StartupSource::UserAutostart || entry.source == StartupSource::SystemAutostart),
            Ok(ToggleAction::RunSystemctl(args)) => !entry.critical && (entry.source
                == StartupSource::SystemdSystem || entry.source == StartupSource::SystemdUser)
                && string_views(args@) == systemctl_toggle_args(entry.source, entry.command@, enabled),
        },
{
    if entry.critical {
        return Err(
            string_of(
                &chars_of(
                    "This unit is managed by systemd dependencies (static/generated) and cannot be disabled directly.",
                ),
            ),
        );
    }
    match entry.source {
        StartupSource::UserAutostart | StartupSource::SystemAutostart => {
            Ok(ToggleAction::EditAutostartFile)
        },
        StartupSource::SystemdSystem | StartupSource::SystemdUser => {
            let mut args: Vec<Vec<char>> = Vec::new();
            if entry.source == StartupSource::SystemdUser {
                args.push(chars_of("--user"));
            }
            if enabled {
                args.push(chars_of("enable"));
            } else {
                args.push(chars_of("disable"));
            }
            args.push(chars_of_string(&entry.command));
            assert(views(args@) =~= systemctl_toggle_args(entry.source, entry.command@, enabled));
            Ok(ToggleAction::RunSystemctl(strings_of(&args)))
        },
    }
}

/// Where a switched autostart file is written: in place for the user's own
/// entries; for system entries, a copy in the user's autostart directory,
/// which the caller creates first.
pub enum AutostartTarget {
    InPlace(String),
    UserCopy { dir: String, file: Result<String, String> },
}

/// `$HOME/.config/autostart`.
pub open spec fn user_autostart_dir(home: Seq<char>) -> Seq<char> {
    home + "/.config/autostart"@
}

/// Where the switched file of `entry` goes, given the home directory.
/// A system entry needs a home directory (else `no HOME`) and a file name
/// (else `no name`).
pub fn autostart_target(entry: &StartupEntry, home: Option<&str>) -> (r: Result<AutostartTarget, String>)
    ensures
        match r {
            Ok(AutostartTarget::InPlace(p)) => entry.source != StartupSource::SystemAutostart && p@
                == entry.path@,
            Ok(AutostartTarget::UserCopy { dir, file }) => entry.source == StartupSource::SystemAutostart
                && home is Some && dir@ == user_autostart_dir(home.unwrap()@) && (match file_name(
                entry.path@,
            ) {
                Some(n) => file is Ok && file.unwrap()@ == path_join(user_autostart_dir(home.unwrap()@), n),
                None => file is Err && file.unwrap_err()@ == "no name"@,
            }),
            Err(m) => entry.source == StartupSource::SystemAutostart && home is None && m@ == "no HOME"@,
        },
{
    if entry.source != StartupSource::SystemAutostart {
        return Ok(AutostartTarget::InPlace(entry.path.clone()));
    }
    match home {
        None => Err(string_of(&chars_of("no HOME"))),
        Some(h) => {
            let mut dir = chars_of(h);
            append_str(&mut dir, "/.config/autostart");
            let file = match path_file_name(&chars_of_string(&entry.path)) {
                Some(n) => Ok(string_of(&path_join_chars(&dir, &n))),
                None => Err(string_of(&chars_of("no name"))),
            };
            Ok(AutostartTarget::UserCopy { dir: string_of(&dir), file })
        },
    }
}


// ---------------------------------------------------------------------------
// Durations printed by `systemd-analyze blame`
// ---------------------------------------------------------------------------

/// A character of a number: an ASCII digit or a decimal point.
pub open spec fn is_number_char(c: char) -> bool {
    is_digit(c) || c == '.'
}

/// A character of a unit: neither a digit nor whitespace.
pub open spec fn is_unit_char(c: char) -> bool {
    !is_digit(c) && !is_ws(c)
}

/// Length of the leading run of number characters.
pub open spec fn number_len(s: Seq<char>) -> int
    decreases s.len(),
{
    if s.len() == 0 || !is_number_char(s[0]) {
        0
    } else {
        1 + number_len(s.drop_first())
    }
}

/// Length of the leading run of unit characters.
pub open spec fn unit_len(s: Seq<char>) -> int
    decreases s.len(),
{
    if s.len() == 0 || !is_unit_char(s[0]) {
        0
    } else {
        1 + unit_len(s.drop_first())
    }
}

proof fn lemma_number_len_at(s: Seq<char>, k: int)
    requires
        0 <= k <= s.len(),
        forall|j: int| 0 <= j < k ==> is_number_char(#[trigger] s[j]),
        k < s.len() ==> !is_number_char(s[k]),
    ensures
        number_len(s) == k,
    decreases k,
{
    if k > 0 {
        assert forall|j: int| 0 <= j < k - 1 implies is_number_char(#[trigger] s.drop_first()[j]) by {
            assert(s.drop_first()[j] == s[j + 1]);
        }
        if k < s.len() {
            assert(s.drop_first()[k - 1] == s[k]);
        }
        lemma_number_len_at(s.drop_first(), k - 1);
    }
}

proof fn lemma_unit_len_at(s: Seq<char>, k: int)
    requires
        0 <= k <= s.len(),
        forall|j: int| 0 <= j < k ==> is_unit_char(#[trigger] s[j]),
        k < s.len() ==> !is_unit_char(s[k]),
    ensures
        unit_len(s) == k,
    decreases k,
{
    if k > 0 {
        assert forall|j: int| 0 <= j < k - 1 implies is_unit_char(#[trigger] s.drop_first()[j]) by {
            assert(s.drop_first()[j] == s[j + 1]);
        }
        if k < s.len() {
            assert(s.drop_first()[k - 1] == s[k]);
        }
        lemma_unit_len_at(s.drop_first(), k - 1);
    }
}

pub proof fn lemma_number_len_bounds(s: Seq<char>)
    ensures
        0 <= number_len(s) <= s.len(),
    decreases s.len(),
{
    if s.len() > 0 && is_number_char(s[0]) {
        lemma_number_len_bounds(s.drop_first());
    }
}

pub proof fn lemma_unit_len_bounds(s: Seq<char>)
    ensures
        0 <= unit_len(s) <= s.len(),
    decreases s.len(),
{
    if s.len() > 0 && is_unit_char(s[0]) {
        lemma_unit_len_bounds(s.drop_first());
    }
}

/// Digits and decimal points that read as an `f64`: at least one digit and at
/// most one decimal point.
pub open spec fn valid_number(t: Seq<char>) -> bool {
    count_char(t, '.') <= 1 && count_char(t, '.') < t.len()
}

/// Microseconds in one of a unit: `us` (also written `µs` or `μs`), `ms`,
/// `s`, `min`, `h`, `d`.
pub open spec fn unit_factor(u: Seq<char>) -> Option<u64> {
    if u == "us"@ || u == "µs"@ || u == "μs"@ {
        Some(1)
    } else if u == "ms"@ {
        Some(1000)
    } else if u == "s"@ {
        Some(1000000)
    } else if u == "min"@ {
        Some(60000000)
    } else if u == "h"@ {
        Some(3600000000)
    } else if u == "d"@ {
        Some(86400000000)
    } else {
        None
    }
}

/// The terms of a duration from `rest` on: each a number and a unit. A term
/// without a number, or whose number does not read, spoils the duration; a
/// term with an unknown unit ends it, and spoils it if it is the first.
pub open spec fn terms_from(rest: Seq<char>, matched: bool) -> Option<Seq<(Seq<char>, u64)>>
    decreases rest.len(),
{
    if rest.len() == 0 {
        Some(seq![])
    } else {
        let r = trim_start(rest);
        let ne = number_len(r);
        if ne == 0 {
            None
        } else {
            proof {
                lemma_trim_start_shape(rest);
                lemma_number_len_bounds(r);
            }
            let num = r.take(ne);
            let after = r.skip(ne);
            let ue = unit_len(after);
            proof {
                lemma_unit_len_bounds(after);
            }
            if !valid_number(num) {
                None
            } else {
                match unit_factor(after.take(ue)) {
                    None => if matched {
                        Some(seq![])
                    } else {
                        None
                    },
                    Some(f) => match terms_from(after.skip(ue), true) {
                        Some(ts) => Some(seq![(num, f)] + ts),
                        None => None,
                    },
                }
            }
        }
    }
}

/// The terms of a duration as `systemd-analyze` prints it ("877us", "12ms",
/// "1.234s", "1min 2.345s", "2h 3min 4s"); none for a blank text. Its length
/// in microseconds is the sum of each number times its unit's factor.
pub open spec fn duration_terms(s: Seq<char>) -> Option<Seq<(Seq<char>, u64)>> {
    let t = trim(s);
    if t.len() == 0 {
        None
    } else {
        terms_from(t, false)
    }
}

/// One term of a duration: a decimal number and the microseconds of its unit.
pub struct DurationTerm {
    pub number: String,
    pub factor_us: u64,
}

/// The views of duration terms.
pub open spec fn term_views(v: Seq<DurationTerm>) -> Seq<(Seq<char>, u64)> {
    v.map_values(|t: DurationTerm| (t.number@, t.factor_us))
}

fn unit_factor_exec(u: &Vec<char>) -> (r: Option<u64>)
    ensures
        r == unit_factor(u@),
{
    if chars_eq_str(u, "us") || chars_eq_str(u, "µs") || chars_eq_str(u, "μs") {
        Some(1)
    } else if chars_eq_str(u, "ms") {
        Some(1000)
    } else if chars_eq_str(u, "s") {
        Some(1000000)
    } else if chars_eq_str(u, "min") {
        Some(60000000)
    } else if chars_eq_str(u, "h") {
        Some(3600000000)
    } else if chars_eq_str(u, "d") {
        Some(86400000000)
    } else {
        None
    }
}

fn valid_number_exec(t: &Vec<char>) -> (r: bool)
    ensures
        r == valid_number(t@),
{
    let mut dots: usize = 0;
    let mut i: usize = 0;
    assert(t@.take(0) =~= Seq::<char>::empty());
    while i < t.len()
        invariant
            i <= t.len(),
            dots == count_char(t@.take(i as int), '.'),
            dots <= i,
        decreases t.len() - i,
    {
        assert(t@.take(i + 1).drop_last() =~= t@.take(i as int));
        if t[i] == '.' {
            dots += 1;
        }
        i += 1;
    }
    assert(t@.take(t.len() as int) =~= t@);
    dots <= 1 && dots < t.len()
}

/// Prepends `acc` to a result.
pub open spec fn prepend_terms(acc: Seq<(Seq<char>, u64)>, r: Option<Seq<(Seq<char>, u64)>>) -> Option<Seq<(Seq<char>, u64)>> {
    match r {
        Some(ts) => Some(acc + ts),
        None => None,
    }
}

/// The terms of a duration printed by `systemd-analyze`, or none when the
/// text is not a duration.
pub fn duration_terms_exec(s: &str) -> (r: Option<Vec<DurationTerm>>)
    ensures
        match r {
            Some(ts) => duration_terms(s@) == Some(term_views(ts@)),
            None => duration_terms(s@) is None,
        },
{
    let t = trim_chars(&chars_of(s));
    if t.len() == 0 {
        return None;
    }
    let mut acc: Vec<DurationTerm> = Vec::new();
    let mut pos: usize = 0;
    assert(t@.skip(0) =~= t@);
    assert(term_views(acc@) =~= Seq::<(Seq<char>, u64)>::empty());
    assert(prepend_terms(term_views(acc@), terms_from(t@, false)) =~= terms_from(t@, false)) by {
        if terms_from(t@, false) is Some {
            assert(Seq::<(Seq<char>, u64)>::empty() + terms_from(t@, false)->0 =~= terms_from(t@, false)->0);
        }
    }
    while pos < t.len()
        invariant
            pos <= t.len(),
            t@ == trim(s@),
            t.len() > 0,
            terms_from(t@, false) == prepend_terms(term_views(acc@), terms_from(t@.skip(pos as int), acc.len() > 0)),
        decreases t.len() - pos,
    {
        let ghost rest = t@.skip(pos as int);
        let ghost matched = acc.len() > 0;
        let sub = slice_chars(&t, pos, t.len());
        assert(sub@ =~= rest);
        let a = trim_start_index(&sub);
        let r0 = pos + a;
        let ghost r = trim_start(rest);
        assert(r =~= t@.skip(r0 as int));
        let mut ne_end = r0;
        while ne_end < t.len() && (('0' <= t[ne_end] && t[ne_end] <= '9') || t[ne_end] == '.')
            invariant
                r0 <= ne_end <= t.len(),
                forall|j: int| r0 <= j < ne_end ==> is_number_char(#[trigger] t@[j]),
            decreases t.len() - ne_end,
        {
            ne_end += 1;
        }
        proof {
            assert forall|j: int| 0 <= j < ne_end - r0 implies is_number_char(#[trigger] r[j]) by {
                assert(r[j] == t@[r0 + j]);
            }
            if ne_end < t.len() {
                assert(r[ne_end - r0] == t@[ne_end as int]);
            }
            lemma_number_len_at(r, ne_end - r0);
        }
        if ne_end == r0 {
            return None;
        }
        let num = slice_chars(&t, r0, ne_end);
        let ghost after = r.skip(ne_end - r0);
        assert(num@ =~= r.take(ne_end - r0));
        assert(after =~= t@.skip(ne_end as int));
        let mut ue_end = ne_end;
        while ue_end < t.len() && !('0' <= t[ue_end] && t[ue_end] <= '9') && !is_whitespace(t[ue_end])
            invariant
                ne_end <= ue_end <= t.len(),
                forall|j: int| ne_end <= j < ue_end ==> is_unit_char(#[trigger] t@[j]),
            decreases t.len() - ue_end,
        {
            ue_end += 1;
        }
        proof {
            assert forall|j: int| 0 <= j < ue_end - ne_end implies is_unit_char(#[trigger] after[j]) by {
                assert(after[j] == t@[ne_end + j]);
            }
            if ue_end < t.len() {
                assert(after[ue_end - ne_end] == t@[ue_end as int]);
            }
            lemma_unit_len_at(after, ue_end - ne_end);
        }
        if !valid_number_exec(&num) {
            return None;
        }
        let unit = slice_chars(&t, ne_end, ue_end);
        assert(unit@ =~= after.take(ue_end - ne_end));
        match unit_factor_exec(&unit) {
            None => {
                if acc.len() > 0 {
                    assert(term_views(acc@) + Seq::<(Seq<char>, u64)>::empty() =~= term_views(acc@));
                    return Some(acc);
                } else {
                    return None;
                }
            },
            Some(f) => {
                let ghost before = term_views(acc@);
                let ghost numv = num@;
                acc.push(DurationTerm { number: string_of(&num), factor_us: f });
                proof {
                    assert(term_views(acc@) =~= before.push((numv, f)));
                    assert(after.skip(ue_end - ne_end) =~= t@.skip(ue_end as int));
                    match terms_from(t@.skip(ue_end as int), true) {
                        Some(ts) => {
                            assert(before + (seq![(numv, f)] + ts) =~= before.push((numv, f)) + ts);
                        },
                        None => {},
                    }
                }
                pos = ue_end;
            },
        }
    }
    assert(t@.skip(t.len() as int).len() == 0);
    assert(term_views(acc@) + Seq::<(Seq<char>, u64)>::empty() =~= term_views(acc@));
    Some(acc)
}


// ---------------------------------------------------------------------------
// `systemd-analyze blame`
// ---------------------------------------------------------------------------

/// A line of `systemd-analyze blame`: a duration, a space, a unit. Every
/// service counts, one entry per line; a duration that does not read gives no
/// terms (no time).
pub open spec fn blame_line(line: Seq<char>) -> Option<(Seq<char>, Seq<(Seq<char>, u64)>)> {
    let l = trim(line);
    if l.len() == 0 {
        None
    } else {
        match rsplit_once(l, ' ') {
            None => None,
            Some((dur, u)) => {
                let unit = trim(u);
                if !".service"@.is_suffix_of(unit) {
                    None
                } else {
                    match duration_terms(trim(dur)) {
                        Some(ts) => Some((unit, ts)),
                        None => Some((unit, seq![])),
                    }
                }
            },
        }
    }
}

/// The services of the given blame lines, in order.
pub open spec fn blame_lines(ls: Seq<Seq<char>>) -> Seq<(Seq<char>, Seq<(Seq<char>, u64)>)>
    decreases ls.len(),
{
    if ls.len() == 0 {
        seq![]
    } else {
        blame_lines(ls.drop_last()) + match blame_line(ls.last()) {
            Some(b) => seq![b],
            None => seq![],
        }
    }
}

/// A service and the terms of the time it took to start.
pub struct BlameLine {
    pub unit: String,
    pub terms: Vec<DurationTerm>,
}

/// The views of blame lines.
pub open spec fn blame_views(v: Seq<BlameLine>) -> Seq<(Seq<char>, Seq<(Seq<char>, u64)>)> {
    v.map_values(|b: BlameLine| (b.unit@, term_views(b.terms@)))
}

fn blame_line_exec(line: &Vec<char>) -> (r: Option<BlameLine>)
    ensures
        match r {
            Some(b) => blame_line(line@) == Some((b.unit@, term_views(b.terms@))),
            None => blame_line(line@) is None,
        },
{
    let l = trim_chars(line);
    if l.len() == 0 {
        return None;
    }
    match rsplit_once_chars(&l, ' ') {
        None => None,
        Some((dur, u)) => {
            let unit = trim_chars(&u);
            if !ends_with_str(&unit, ".service") {
                return None;
            }
            let d = string_of(&trim_chars(&dur));
            match duration_terms_exec(d.as_str()) {
                Some(ts) => Some(BlameLine { unit: string_of(&unit), terms: ts }),
                None => {
                    let none: Vec<DurationTerm> = Vec::new();
                    assert(term_views(none@) =~= Seq::<(Seq<char>, u64)>::empty());
                    Some(BlameLine { unit: string_of(&unit), terms: none })
                },
            }
        },
    }
}

/// The services in the output of `systemd-analyze blame`, one per service
/// line, in order, each with the terms of its start-up time.
pub fn parse_blame(text: &str) -> (r: Vec<BlameLine>)
    ensures
        blame_views(r@) == blame_lines(lines(text@)),
{
    let ls = split_lines(&chars_of(text));
    let ghost vls = views(ls@);
    let mut out: Vec<BlameLine> = Vec::new();
    let mut i: usize = 0;
    assert(vls.take(0) =~= Seq::<Seq<char>>::empty());
    while i < ls.len()
        invariant
            vls == views(ls@),
            i <= ls.len(),
            blame_views(out@) == blame_lines(vls.take(i as int)),
        decreases ls.len() - i,
    {
        assert(vls.take(i + 1).drop_last() =~= vls.take(i as int));
        assert(vls.take(i + 1).last() == ls@[i as int]@);
        let ghost prev = out@;
        match blame_line_exec(&ls[i]) {
            Some(b) => {
                out.push(b);
                assert(out@.drop_last() =~= prev);
                assert(blame_views(out@) =~= blame_views(prev).push(blame_views(out@).last()));
            },
            None => {
                assert(blame_views(out@) =~= blame_views(prev) + Seq::<(Seq<char>, Seq<(Seq<char>, u64)>)>::empty());
            },
        }
        i += 1;
    }
    assert(vls.take(ls.len() as int) =~= vls);
    out
}

/// `s` without every trailing copy of `p` (`str::trim_end_matches`).
pub open spec fn strip_suffixes(s: Seq<char>, p: Seq<char>) -> Seq<char>
    decreases s.len(),
{
    if p.len() > 0 && p.is_suffix_of(s) {
        strip_suffixes(s.take(s.len() - p.len()), p)
    } else {
        s
    }
}

fn strip_suffixes_exec(v: &Vec<char>, p: &str) -> (r: Vec<char>)
    ensures
        r@ == strip_suffixes(v@, p@),
{
    let pv = chars_of(p);
    let mut cur = copy_chars(v);
    while pv.len() > 0 && crate::text::ends_with(&cur, &pv)
        invariant
            pv@ == p@,
            strip_suffixes(cur@, p@) == strip_suffixes(v@, p@),
        decreases cur.len(),
    {
        let k = cur.len() - pv.len();
        cur = slice_chars(&cur, 0, k);
        assert(cur@ =~= cur@.take(k as int));
    }
    cur
}

/// The entry of a systemd unit that took `boot_ms` milliseconds to start; it
/// is protected when it is among the `protected` units.
pub open spec fn systemd_record(unit: Seq<char>, boot_ms: u64, user: bool, protected: Seq<Seq<char>>) -> StartupRecord {
    StartupRecord {
        source: if user {
            StartupSource::SystemdUser
        } else {
            StartupSource::SystemdSystem
        },
        path: unit,
        name: strip_suffixes(unit, ".service"@),
        command: unit,
        comment: seq![],
        icon: seq![],
        enabled: true,
        boot_time_ms: Some(boot_ms),
        critical: protected.contains(unit),
    }
}

/// The startup entry of a systemd unit.
pub fn systemd_entry(unit: &str, boot_ms: u64, user: bool, protected: &Vec<String>) -> (r: StartupEntry)
    ensures
        r@ == systemd_record(unit@, boot_ms, user, string_views(protected@)),
{
    let u = chars_of(unit);
    let mut critical = false;
    let mut i: usize = 0;
    while i < protected.len()
        invariant
            i <= protected.len(),
            u@ == unit@,
            critical == exists|j: int| 0 <= j < i && #[trigger] protected@[j]@ == unit@,
        decreases protected.len() - i,
    {
        if crate::text::chars_eq(&chars_of_string(&protected[i]), &u) {
            critical = true;
        }
        i += 1;
    }
    proof {
        let pv = string_views(protected@);
        if critical {
            let j = choose|j: int| 0 <= j < protected.len() && #[trigger] protected@[j]@ == unit@;
            assert(pv[j] == unit@);
        }
        if pv.contains(unit@) {
            let j = choose|j: int| 0 <= j < pv.len() && pv[j] == unit@;
            assert(protected@[j]@ == unit@);
        }
    }
    StartupEntry {
        source: if user {
            StartupSource::SystemdUser
        } else {
            StartupSource::SystemdSystem
        },
        path: string_of(&u),
        name: string_of(&strip_suffixes_exec(&u, ".service")),
        command: string_of(&u),
        comment: string_of(&Vec::new()),
        icon: string_of(&Vec::new()),
        enabled: true,
        boot_time_ms: Some(boot_ms),
        critical,
    }
}

/// The entries of the services of a `systemd-analyze blame` output, one per
/// line in order, with `ms[i]` the milliseconds line `i` took; and the unit
/// names, in the same order, whose descriptions are then asked for.
pub fn systemd_entries(
    blame: &Vec<BlameLine>,
    ms: &Vec<u64>,
    user: bool,
    protected: &Vec<String>,
) -> (r: (Vec<StartupEntry>, Vec<String>))
    requires
        ms@.len() == blame@.len(),
    ensures
        r.0@.len() == blame@.len(),
        r.1@.len() == blame@.len(),
        forall|i: int|
            0 <= i < blame@.len() ==> #[trigger] r.0@[i]@ == systemd_record(
                blame@[i].unit@,
                ms@[i],
                user,
                string_views(protected@),
            ) && r.1@[i]@ == blame@[i].unit@,
{
    let mut entries: Vec<StartupEntry> = Vec::new();
    let mut units: Vec<String> = Vec::new();
    let mut i: usize = 0;
    while i < blame.len()
        invariant
            i <= blame@.len(),
            ms@.len() == blame@.len(),
            entries@.len() == i,
            units@.len() == i,
            forall|j: int|
                0 <= j < i ==> #[trigger] entries@[j]@ == systemd_record(
                    blame@[j].unit@,
                    ms@[j],
                    user,
                    string_views(protected@),
                ) && units@[j]@ == blame@[j].unit@,
        decreases blame@.len() - i,
    {
        entries.push(systemd_entry(blame[i].unit.as_str(), ms[i], user, protected));
        units.push(blame[i].unit.clone());
        i += 1;
    }
    (entries, units)
}

// ---------------------------------------------------------------------------
// Protected units (`systemctl list-unit-files`)
// ---------------------------------------------------------------------------

/// The unit a line of `systemctl list-unit-files` names, when its state is
/// `static`, `generated` or `alias`.
pub open spec fn protected_unit(line: Seq<char>) -> Option<Seq<char>> {
    let ws = words(line);
    if ws.len() < 2 {
        None
    } else if ws[1] == "static"@ || ws[1] == "generated"@ || ws[1] == "alias"@ {
        Some(ws[0])
    } else {
        None
    }
}

/// The protected units of the given lines, in order, repeats included.
pub open spec fn protected_list(ls: Seq<Seq<char>>) -> Seq<Seq<char>>
    decreases ls.len(),
{
    if ls.len() == 0 {
        seq![]
    } else {
        protected_list(ls.drop_last()) + match protected_unit(ls.last()) {
            Some(u) => seq![u],
            None => seq![],
        }
    }
}

proof fn lemma_protected_list(ls: Seq<Seq<char>>, u: Seq<char>)
    ensures
        protected_list(ls).contains(u) <==> exists|i: int|
            0 <= i < ls.len() && #[trigger] words(ls[i]).len() >= 2 && words(ls[i])[0] == u && (words(ls[i])[1]
                == "static"@ || words(ls[i])[1] == "generated"@ || words(ls[i])[1] == "alias"@),
    decreases ls.len(),
{
    if ls.len() > 0 {
        let q = ls.drop_last();
        lemma_protected_list(q, u);
        let tail = match protected_unit(ls.last()) {
            Some(x) => seq![x],
            None => Seq::<Seq<char>>::empty(),
        };
        assert(protected_list(ls) == protected_list(q) + tail);
        if protected_list(ls).contains(u) {
            let k = choose|k: int| 0 <= k < protected_list(ls).len() && protected_list(ls)[k] == u;
            if k < protected_list(q).len() {
                assert(protected_list(q)[k] == u);
                let i = choose|i: int|
                    0 <= i < q.len() && #[trigger] words(q[i]).len() >= 2 && words(q[i])[0] == u && (words(q[i])[1]
                        == "static"@ || words(q[i])[1] == "generated"@ || words(q[i])[1] == "alias"@);
                assert(q[i] == ls[i]);
            } else {
                assert(tail[k - protected_list(q).len()] == u);
                assert(ls[ls.len() - 1] == ls.last());
            }
        }
        if exists|i: int|
            0 <= i < ls.len() && #[trigger] words(ls[i]).len() >= 2 && words(ls[i])[0] == u && (words(ls[i])[1]
                == "static"@ || words(ls[i])[1] == "generated"@ || words(ls[i])[1] == "alias"@) {
            let i = choose|i: int|
                0 <= i < ls.len() && #[trigger] words(ls[i]).len() >= 2 && words(ls[i])[0] == u && (words(ls[i])[1]
                    == "static"@ || words(ls[i])[1] == "generated"@ || words(ls[i])[1] == "alias"@);
            if i < q.len() {
                assert(q[i] == ls[i]);
                assert(protected_list(q).contains(u));
                let k = choose|k: int| 0 <= k < protected_list(q).len() && protected_list(q)[k] == u;
                assert(protected_list(ls)[k] == u);
            } else {
                assert(ls[i] == ls.last());
                assert(protected_list(ls)[protected_list(q).len() as int] == u);
            }
        }
    }
}

proof fn lemma_append_new_nonempty(t: Seq<Seq<char>>, ps: Seq<Seq<char>>, x: Seq<char>)
    requires
        append_new(t, ps).contains(x),
        !t.contains(x),
    ensures
        x.len() > 0,
    decreases ps.len(),
{
    if ps.len() > 0 {
        let a = append_new(t, ps.drop_last());
        if a.contains(x) {
            lemma_append_new_nonempty(t, ps.drop_last(), x);
        } else {
            let k = choose|k: int| 0 <= k < append_new(t, ps).len() && append_new(t, ps)[k] == x;
            if k < a.len() {
                assert(a[k] == x);
            }
        }
    }
}

/// A unit is listed as protected exactly when some line of the output names
/// it as its first word, with `static`, `generated` or `alias` as its second;
/// a line with any other state adds nothing.
pub proof fn law_protected_units(text: Seq<char>, u: Seq<char>)
    ensures
        append_new(seq![], protected_list(lines(text))).contains(u) <==> u.len() > 0 && exists|i: int|
            0 <= i < lines(text).len() && #[trigger] words(lines(text)[i]).len() >= 2 && words(lines(text)[i])[0]
                == u && (words(lines(text)[i])[1] == "static"@ || words(lines(text)[i])[1] == "generated"@
                || words(lines(text)[i])[1] == "alias"@),
{
    let pl = protected_list(lines(text));
    lemma_protected_list(lines(text), u);
    law_append_new(seq![], pl);
    if append_new(seq![], pl).contains(u) {
        lemma_append_new_nonempty(seq![], pl, u);
    }
    if u.len() > 0 && pl.contains(u) {
        let k = choose|k: int| 0 <= k < pl.len() && pl[k] == u;
        assert(pl[k].len() > 0);
    }
}

/// The set of units that cannot meaningfully be disabled, from the output of
/// `systemctl list-unit-files --plain --no-legend`: each once, in the order
/// first met.
pub fn parse_protected_units(text: &str) -> (r: Vec<String>)
    ensures
        string_views(r@) == append_new(seq![], protected_list(lines(text@))),
        string_views(r@).no_duplicates(),
{
    let ls = split_lines(&chars_of(text));
    let ghost vls = views(ls@);
    let mut found: Vec<Vec<char>> = Vec::new();
    let mut i: usize = 0;
    assert(vls.take(0) =~= Seq::<Seq<char>>::empty());
    while i < ls.len()
        invariant
            vls == views(ls@),
            i <= ls.len(),
            views(found@) == protected_list(vls.take(i as int)),
        decreases ls.len() - i,
    {
        assert(vls.take(i + 1).drop_last() =~= vls.take(i as int));
        assert(vls.take(i + 1).last() == ls@[i as int]@);
        let ws = split_words(&ls[i]);
        let ghost prev = views(found@);
        if ws.len() >= 2 && (chars_eq_str(&ws[1], "static") || chars_eq_str(&ws[1], "generated")
            || chars_eq_str(&ws[1], "alias")) {
            found.push(copy_chars(&ws[0]));
            assert(views(found@) =~= prev.push(views(ws@)[0]));
        } else {
            assert(views(found@) =~= prev + Seq::<Seq<char>>::empty());
        }
        i += 1;
    }
    assert(vls.take(ls.len() as int) =~= vls);
    let mut set: Vec<Vec<char>> = Vec::new();
    assert(views(set@) =~= Seq::<Seq<char>>::empty());
    append_new_exec(&mut set, &found);
    proof {
        law_append_new(seq![], views(found@));
    }
    strings_of(&set)
}

// ---------------------------------------------------------------------------
// Unit descriptions (`systemctl show --property=Id --property=Description`)
// ---------------------------------------------------------------------------

/// One line of `systemctl show` output. The state is the `Id` and
/// `Description` of the unit under way and the (id, description) pairs
/// recorded so far; a blank line records the unit under way, if it has an id.
pub open spec fn show_step(
    st: (Seq<char>, Seq<char>, Seq<(Seq<char>, Seq<char>)>),
    line: Seq<char>,
) -> (Seq<char>, Seq<char>, Seq<(Seq<char>, Seq<char>)>) {
    if line.len() == 0 {
        if st.0.len() > 0 {
            (seq![], seq![], st.2.push((st.0, st.1)))
        } else {
            (st.0, seq![], st.2)
        }
    } else if "Id="@.is_prefix_of(line) {
        (line.skip("Id="@.len() as int), st.1, st.2)
    } else if "Description="@.is_prefix_of(line) {
        (st.0, line.skip("Description="@.len() as int), st.2)
    } else {
        st
    }
}

/// The state after the given lines.
pub open spec fn show_state(ls: Seq<Seq<char>>) -> (Seq<char>, Seq<char>, Seq<(Seq<char>, Seq<char>)>)
    decreases ls.len(),
{
    if ls.len() == 0 {
        (seq![], seq![], seq![])
    } else {
        show_step(show_state(ls.drop_last()), ls.last())
    }
}

/// The (id, description) pairs of `systemctl show` output, in order; the
/// description of a unit is that of its last pair.
pub open spec fn show_pairs(text: Seq<char>) -> Seq<(Seq<char>, Seq<char>)> {
    let st = show_state(lines(text));
    if st.0.len() > 0 {
        st.2.push((st.0, st.1))
    } else {
        st.2
    }
}

/// The value of the last line of `ls` that starts with `key`, without the
/// key; empty when no line does.
pub open spec fn last_field(ls: Seq<Seq<char>>, key: Seq<char>) -> Seq<char>
    decreases ls.len(),
{
    if ls.len() == 0 {
        seq![]
    } else if key.is_prefix_of(ls.last()) {
        ls.last().skip(key.len() as int)
    } else {
        last_field(ls.drop_last(), key)
    }
}

/// The position of the last empty line, or -1.
pub open spec fn last_blank(ls: Seq<Seq<char>>) -> int
    decreases ls.len(),
{
    if ls.len() == 0 {
        -1
    } else if ls.last().len() == 0 {
        ls.len() - 1
    } else {
        last_blank(ls.drop_last())
    }
}

pub proof fn lemma_last_blank_bounds(ls: Seq<Seq<char>>)
    ensures
        -1 <= last_blank(ls) < ls.len(),
    decreases ls.len(),
{
    if ls.len() > 0 && ls.last().len() > 0 {
        lemma_last_blank_bounds(ls.drop_last());
    }
}

/// The pair of one block of `systemctl show` output: its last `Id=` with its
/// last `Description=` (empty when it has none); nothing when it names no id.
pub open spec fn block_pair(b: Seq<Seq<char>>) -> Seq<(Seq<char>, Seq<char>)> {
    let id = last_field(b, "Id="@);
    if id.len() > 0 {
        seq![(id, last_field(b, "Description="@))]
    } else {
        seq![]
    }
}

/// The pairs of the blocks of `ls`, the runs of lines between empty lines,
/// in order.
pub open spec fn block_pairs(ls: Seq<Seq<char>>) -> Seq<(Seq<char>, Seq<char>)>
    decreases ls.len(),
{
    let i = last_blank(ls);
    proof {
        lemma_last_blank_bounds(ls);
    }
    if i < 0 {
        block_pair(ls)
    } else {
        block_pairs(ls.take(i)) + block_pair(ls.skip(i + 1))
    }
}

proof fn lemma_show_state(ls: Seq<Seq<char>>)
    ensures
        ({
            let i = last_blank(ls);
            let cur = ls.skip(i + 1);
            show_state(ls) == (
                last_field(cur, "Id="@),
                last_field(cur, "Description="@),
                if i < 0 {
                    Seq::<(Seq<char>, Seq<char>)>::empty()
                } else {
                    block_pairs(ls.take(i))
                },
            )
        }),
    decreases ls.len(),
{
    reveal_strlit("Id=");
    reveal_strlit("Description=");
    lemma_last_blank_bounds(ls);
    if ls.len() == 0 {
        assert(ls.skip(0) =~= Seq::<Seq<char>>::empty());
    } else {
        let p = ls.drop_last();
        let l = ls.last();
        lemma_show_state(p);
        lemma_last_blank_bounds(p);
        let ip = last_blank(p);
        let curp = p.skip(ip + 1);
        let st = show_state(p);
        if l.len() == 0 {
            assert(ls.take(ls.len() - 1) =~= p);
            assert(ls.skip(ls.len() as int) =~= Seq::<Seq<char>>::empty());
            if ip < 0 {
                assert(curp =~= p);
            }
            if st.0.len() == 0 {
                assert(st.0 =~= Seq::<char>::empty());
            }
        } else {
            let cur = ls.skip(ip + 1);
            assert(cur =~= curp.push(l));
            assert(cur.drop_last() =~= curp);
            if ip >= 0 {
                assert(ls.take(ip) =~= p.take(ip));
            }
            if "Id="@.is_prefix_of(l) {
                assert("Id="@[0] == 'I');
                assert(l.subrange(0, 3)[0] == l[0]);
                assert(l[0] == 'I');
                assert("Description="@[0] == 'D');
                if "Description="@.is_prefix_of(l) {
                    assert(l.subrange(0, 12)[0] == l[0]);
                }
                assert(!"Description="@.is_prefix_of(l));
            }
        }
    }
}

/// The pairs of `systemctl show` output directly: one per block of lines
/// between blank lines that names an id, giving the block's last `Id=` and
/// its last `Description=` (empty when it has none).
pub proof fn law_show_pairs(text: Seq<char>)
    ensures
        show_pairs(text) == block_pairs(lines(text)),
{
    let ls = lines(text);
    lemma_show_state(ls);
    lemma_last_blank_bounds(ls);
    let i = last_blank(ls);
    if i < 0 {
        assert(ls.skip(0) =~= ls);
    }
}

/// The views of string pairs.
pub open spec fn string_pairs(v: Seq<(String, String)>) -> Seq<(Seq<char>, Seq<char>)> {
    v.map_values(|p: (String, String)| (p.0@, p.1@))
}

/// The (id, description) pairs of `systemctl show --property=Id
/// --property=Description` output, in order.
pub fn parse_descriptions(text: &str) -> (r: Vec<(String, String)>)
    ensures
        string_pairs(r@) == show_pairs(text@),
{
    let ls = split_lines(&chars_of(text));
    let ghost vls = views(ls@);
    let mut id: Vec<char> = Vec::new();
    let mut desc: Vec<char> = Vec::new();
    let mut out: Vec<(String, String)> = Vec::new();
    let mut i: usize = 0;
    assert(vls.take(0) =~= Seq::<Seq<char>>::empty());
    assert(string_pairs(out@) =~= Seq::<(Seq<char>, Seq<char>)>::empty());
    while i < ls.len()
        invariant
            vls == views(ls@),
            i <= ls.len(),
            show_state(vls.take(i as int)) == (id@, desc@, string_pairs(out@)),
        decreases ls.len() - i,
    {
        assert(vls.take(i + 1).drop_last() =~= vls.take(i as int));
        assert(vls.take(i + 1).last() == ls@[i as int]@);
        let line = &ls[i];
        let ghost prev = out@;
        if line.len() == 0 {
            if id.len() > 0 {
                out.push((string_of(&id), string_of(&desc)));
                id = Vec::new();
                assert(out@.drop_last() =~= prev);
                assert(string_pairs(out@) =~= string_pairs(prev).push(string_pairs(out@).last()));
            }
            desc = Vec::new();
            assert(desc@ =~= Seq::<char>::empty());
            assert(id.len() == 0 ==> id@ =~= Seq::<char>::empty());
        } else if starts_with_str(line, "Id=") {
            let k = chars_of("Id=").len();
            id = slice_chars(line, k, line.len());
            assert(id@ =~= line@.skip("Id="@.len() as int));
        } else if starts_with_str(line, "Description=") {
            let k = chars_of("Description=").len();
            desc = slice_chars(line, k, line.len());
            assert(desc@ =~= line@.skip("Description="@.len() as int));
        }
        i += 1;
    }
    assert(vls.take(ls.len() as int) =~= vls);
    if id.len() > 0 {
        let ghost prev = out@;
        out.push((string_of(&id), string_of(&desc)));
        assert(out@.drop_last() =~= prev);
        assert(string_pairs(out@) =~= string_pairs(prev).push(string_pairs(out@).last()));
    }
    out
}

/// `entries` with each comment set to the description recorded last for the
/// entry's unit, where there is one.
pub open spec fn described(es: Seq<StartupRecord>, pairs: Seq<(Seq<char>, Seq<char>)>) -> Seq<StartupRecord> {
    es.map_values(
        |e: StartupRecord|
            match last_value(pairs, e.command) {
                Some(d) => StartupRecord { comment: d, ..e },
                None => e,
            },
    )
}

fn last_description(pairs: &Vec<(String, String)>, unit: &Vec<char>) -> (r: Option<String>)
    ensures
        match r {
            Some(d) => last_value(string_pairs(pairs@), unit@) == Some(d@),
            None => last_value(string_pairs(pairs@), unit@) is None,
        },
{
    let ghost ps = string_pairs(pairs@);
    let mut i = pairs.len();
    assert(ps.take(pairs.len() as int) =~= ps);
    while i > 0
        invariant
            ps == string_pairs(pairs@),
            i <= pairs.len(),
            last_value(ps, unit@) == last_value(ps.take(i as int), unit@),
        decreases i,
    {
        let ghost pre = ps.take(i as int);
        assert(pre.drop_last() =~= ps.take(i - 1));
        assert(pre.last() == (pairs@[i - 1].0@, pairs@[i - 1].1@));
        if crate::text::chars_eq(&chars_of_string(&pairs[i - 1].0), unit) {
            return Some(pairs[i - 1].1.clone());
        }
        i -= 1;
    }
    None
}

/// Sets the comment of each entry to its unit's description.
pub fn apply_descriptions(entries: &mut Vec<StartupEntry>, pairs: &Vec<(String, String)>)
    ensures
        entry_records(final(entries)@) == described(entry_records(old(entries)@), string_pairs(pairs@)),
{
    let ghost e0 = entry_records(entries@);
    let mut out: Vec<StartupEntry> = Vec::new();
    let mut i: usize = 0;
    while i < entries.len()
        invariant
            i <= entries.len(),
            e0 == entry_records(entries@),
            out.len() == i,
            forall|q: int| 0 <= q < i ==> #[trigger] out@[q]@ == described(e0, string_pairs(pairs@))[q],
        decreases entries.len() - i,
    {
        let mut e = entries[i].copy();
        match last_description(pairs, &chars_of_string(&e.command)) {
            Some(d) => {
                e.comment = d;
            },
            None => {},
        }
        out.push(e);
        i += 1;
    }
    assert(entry_records(out@) =~= described(e0, string_pairs(pairs@)));
    *entries = out;
}


// ---------------------------------------------------------------------------
// Order of the startup list
// ---------------------------------------------------------------------------

/// `a` may be listed before `b`: protected units first; then by boot time,
/// longest first, entries without one after those with one; entries without
/// a boot time by lowercased name.
pub open spec fn listed_before(
    a_critical: bool,
    a_boot: Option<u64>,
    a_name: Seq<char>,
    b_critical: bool,
    b_boot: Option<u64>,
    b_name: Seq<char>,
) -> bool {
    if a_critical != b_critical {
        a_critical
    } else {
        match (a_boot, b_boot) {
            (Some(x), Some(y)) => x >= y,
            (Some(_), None) => true,
            (None, Some(_)) => false,
            (None, None) => lex_le(a_name, b_name),
        }
    }
}

/// The sort key of a startup entry.
pub struct StartupKey {
    pub critical: bool,
    pub boot: Option<u64>,
    pub lower_name: Vec<char>,
}

impl OrderKey for StartupKey {
    open spec fn key_le(self, other: Self) -> bool {
        listed_before(
            self.critical,
            self.boot,
            self.lower_name@,
            other.critical,
            other.boot,
            other.lower_name@,
        )
    }

    proof fn lemma_key_le_total(a: Self, b: Self) {
        lemma_lex_le_total(a.lower_name@, b.lower_name@);
    }

    proof fn lemma_key_le_trans(a: Self, b: Self, c: Self) {
        if a.critical == b.critical && b.critical == c.critical && a.boot is None && b.boot is None
            && c.boot is None {
            lemma_lex_le_trans(a.lower_name@, b.lower_name@, c.lower_name@);
        }
    }

    fn le(&self, other: &Self) -> (r: bool) {
        if self.critical != other.critical {
            self.critical
        } else {
            match (self.boot, other.boot) {
                (Some(x), Some(y)) => x >= y,
                (Some(_), None) => true,
                (None, Some(_)) => false,
                (None, None) => lex_le_exec(&self.lower_name, &other.lower_name),
            }
        }
    }
}

/// `order` lists `es` in startup-list order, keeping the input order of
/// entries that compare equal.
pub open spec fn sorted_for_listing(es: Seq<StartupRecord>, order: Seq<usize>) -> bool {
    &&& is_permutation(order, es.len())
    &&& forall|a: int, b: int|
        0 <= a < b < order.len() ==> {
            let x = #[trigger] es[order[a] as int];
            let y = #[trigger] es[order[b] as int];
            &&& listed_before(x.critical, x.boot_time_ms, lowercase(x.name), y.critical, y.boot_time_ms, lowercase(y.name))
            &&& listed_before(y.critical, y.boot_time_ms, lowercase(y.name), x.critical, x.boot_time_ms, lowercase(x.name))
                ==> order[a] < order[b]
        }
}

/// The startup list in display order (a stable sort).
pub fn sort_entries(entries: &Vec<StartupEntry>) -> (r: Vec<StartupEntry>)
    ensures
        exists|order: Seq<usize>|
            #[trigger] sorted_for_listing(entry_records(entries@), order) && entry_records(r@) == permuted(
                entry_records(entries@),
                order,
            ),
{
    let ghost es = entry_records(entries@);
    let mut keys: Vec<StartupKey> = Vec::new();
    let mut i: usize = 0;
    while i < entries.len()
        invariant
            i <= entries.len(),
            keys.len() == i,
            forall|q: int| 0 <= q < i ==> {
                &&& (#[trigger] keys@[q]).critical == entries@[q].critical
                &&& keys@[q].boot == entries@[q].boot_time_ms
                &&& keys@[q].lower_name@ == lowercase(entries@[q].name@)
            },
        decreases entries.len() - i,
    {
        let e = &entries[i];
        keys.push(
            StartupKey {
                critical: e.critical,
                boot: e.boot_time_ms,
                lower_name: to_lowercase(&chars_of_string(&e.name)),
            },
        );
        i += 1;
    }
    let order = stable_order(&keys);
    let mut out: Vec<StartupEntry> = Vec::new();
    let mut k: usize = 0;
    while k < order.len()
        invariant
            k <= order.len(),
            es == entry_records(entries@),
            is_permutation(order@, entries.len() as nat),
            out.len() == k,
            forall|q: int| 0 <= q < k ==> #[trigger] out@[q]@ == es[order@[q] as int],
        decreases order.len() - k,
    {
        out.push(entries[order[k]].copy());
        k += 1;
    }
    proof {
        assert(entry_records(out@) =~= permuted(es, order@));
        assert forall|a: int, b: int| 0 <= a < b < order@.len() implies {
            let x = #[trigger] es[order@[a] as int];
            let y = #[trigger] es[order@[b] as int];
            &&& listed_before(x.critical, x.boot_time_ms, lowercase(x.name), y.critical, y.boot_time_ms, lowercase(y.name))
            &&& listed_before(y.critical, y.boot_time_ms, lowercase(y.name), x.critical, x.boot_time_ms, lowercase(x.name))
                ==> order@[a] < order@[b]
        } by {
            assert(keys@[order@[a] as int].key_le(keys@[order@[b] as int]));
        }
        assert(sorted_for_listing(es, order@));
    }
    out
}


// ---------------------------------------------------------------------------
// Reading back a switched autostart file
// ---------------------------------------------------------------------------

/// `l` holds no line feed.
pub open spec fn no_newline(l: Seq<char>) -> bool {
    forall|j: int| 0 <= j < l.len() ==> l[j] != '\n'
}

/// A line whose key (up to its first `=`, trimmed) is `key` is written exactly
/// as `key=...` once trimmed, with nothing between the key and the `=`.
pub open spec fn key_written_plainly(l: Seq<char>, key: Seq<char>) -> bool {
    match split_once(trim(l), '=') {
        Some((k, _)) => trim(k) == key ==> (key + "="@).is_prefix_of(trim(l)),
        None => true,
    }
}

/// Inside `[Desktop Entry]` groups, the `Hidden` and
/// `X-GNOME-Autostart-enabled` keys are written plainly.
pub open spec fn toggle_keys_plain(ls: Seq<Seq<char>>) -> bool {
    forall|i: int|
        0 <= i < ls.len() && #[trigger] scan(ls.take(i)).0 && !is_header(trim(ls[i])) ==> key_written_plainly(
            ls[i],
            "Hidden"@,
        ) && key_written_plainly(ls[i], "X-GNOME-Autostart-enabled"@)
}

/// Some line opens a `[Desktop Entry]` group.
pub open spec fn has_entry_group(ls: Seq<Seq<char>>) -> bool {
    exists|i: int| 0 <= i < ls.len() && #[trigger] trim(ls[i]) == "[Desktop Entry]"@
}

/// The lines that `str::lines` reads from `ls` joined by `\n`: the last one
/// disappears when empty, and the others lose a trailing `\r`.
pub open spec fn lines_of_joined(ls: Seq<Seq<char>>) -> Seq<Seq<char>> {
    if ls.len() == 0 {
        seq![]
    } else {
        ls.drop_last().map_values(|l: Seq<char>| strip_cr(l)) + if ls.last().len() > 0 {
            seq![ls.last()]
        } else {
            seq![]
        }
    }
}

proof fn lemma_join_front(ls: Seq<Seq<char>>, sep: Seq<char>)
    requires
        ls.len() >= 2,
    ensures
        join(ls, sep) == ls[0] + sep + join(ls.drop_first(), sep),
    decreases ls.len(),
{
    if ls.len() > 2 {
        let a = ls.drop_last();
        let b = ls.drop_first();
        lemma_join_front(a, sep);
        assert(a.drop_first() =~= b.drop_last());
        assert(b.last() == ls.last());
        assert(a[0] == ls[0]);
        assert(join(ls, sep) == join(a, sep) + sep + ls.last());
        assert(join(b, sep) == join(b.drop_last(), sep) + sep + b.last());
        assert(join(ls, sep) =~= ls[0] + sep + join(b, sep));
    } else {
        assert(ls.drop_last().len() == 1);
        assert(ls.drop_first().len() == 1);
        assert(ls.drop_first()[0] == ls.last());
        assert(join(ls.drop_last(), sep) == ls[0]);
        assert(join(ls.drop_first(), sep) == ls.last());
        assert(join(ls, sep) == join(ls.drop_last(), sep) + sep + ls.last());
    }
}

proof fn lemma_lines_join(ls: Seq<Seq<char>>)
    requires
        forall|i: int| 0 <= i < ls.len() ==> no_newline(#[trigger] ls[i]),
    ensures
        lines(join(ls, "\n"@)) == lines_of_joined(ls),
    decreases ls.len(),
{
    reveal_strlit("\n");
    if ls.len() == 0 {
    } else if ls.len() == 1 {
        let l = ls[0];
        assert(no_newline(l));
        lemma_find_at(l, '\n', l.len() as int);
        assert(ls.drop_last().map_values(|l: Seq<char>| strip_cr(l)) =~= Seq::<Seq<char>>::empty());
        if l.len() > 0 {
            assert(lines(l) == seq![l]);
        }
        assert(lines_of_joined(ls) =~= lines(l));
    } else {
        lemma_join_front(ls, "\n"@);
        let rest = ls.drop_first();
        assert forall|i: int| 0 <= i < rest.len() implies no_newline(#[trigger] rest[i]) by {
            assert(rest[i] == ls[i + 1]);
        }
        lemma_lines_join(rest);
        let j = join(ls, "\n"@);
        let l0 = ls[0];
        assert(no_newline(l0));
        assert(j == l0 + seq!['\n'] + join(rest, "\n"@));
        assert forall|k: int| 0 <= k < l0.len() implies j[k] != '\n' by {
            assert(j[k] == l0[k]);
        }
        lemma_find_at(j, '\n', l0.len() as int);
        assert(j.take(l0.len() as int) =~= l0);
        assert(j.skip(l0.len() as int + 1) =~= join(rest, "\n"@));
        assert(lines(j) == seq![strip_cr(l0)] + lines(join(rest, "\n"@)));
        assert(lines_of_joined(ls) =~= seq![strip_cr(l0)] + lines_of_joined(rest)) by {
            assert(rest.last() == ls.last());
            assert(ls.drop_last().map_values(|l: Seq<char>| strip_cr(l)) =~= seq![strip_cr(l0)]
                + rest.drop_last().map_values(|l: Seq<char>| strip_cr(l)));
        }
    }
}

proof fn lemma_trim_strip_cr(l: Seq<char>)
    ensures
        trim(strip_cr(l)) == trim(l),
{
    if l.len() > 0 && l.last() == '\r' {
        let m = l.drop_last();
        assert(l == m.push('\r'));
        lemma_trim_start_shape(m);
        let t = trim_start(m);
        let k0 = m.len() - t.len();
        assert forall|j: int| 0 <= j < k0 implies is_ws(l[j]) by {
            assert(l[j] == m[j]);
        }
        lemma_trim_start_skip(l, k0);
        if t.len() > 0 {
            assert(l.skip(k0) =~= t.push('\r'));
            assert(!is_ws(l.skip(k0)[0]));
            assert(trim_start(l) == t.push('\r'));
            assert(t.push('\r').drop_last() =~= t);
        } else {
            assert(l.skip(k0) =~= seq!['\r']);
            assert(trim_start(seq!['\r']) == trim_start(seq!['\r'].drop_first()));
            assert(seq!['\r'].drop_first() =~= Seq::<char>::empty());
        }
    }
}

proof fn lemma_scan_empty_line(st: (bool, Seq<(Seq<char>, Seq<char>)>))
    ensures
        scan_step(st, seq![]) == st,
{
    assert(trim(Seq::<char>::empty()) =~= Seq::<char>::empty());
    lemma_find_at(Seq::<char>::empty(), '=', 0);
}

proof fn lemma_scan_push(ls: Seq<Seq<char>>, l: Seq<char>)
    ensures
        scan(ls.push(l)) == scan_step(scan(ls), l),
{
    assert(ls.push(l).drop_last() =~= ls);
}

proof fn lemma_scan_strip_cr(ls: Seq<Seq<char>>)
    ensures
        scan(ls.map_values(|l: Seq<char>| strip_cr(l))) == scan(ls),
    decreases ls.len(),
{
    if ls.len() > 0 {
        let q = ls.drop_last();
        lemma_scan_strip_cr(q);
        let m = ls.map_values(|l: Seq<char>| strip_cr(l));
        assert(m.drop_last() =~= q.map_values(|l: Seq<char>| strip_cr(l)));
        lemma_trim_strip_cr(ls.last());
    }
}

proof fn lemma_scan_of_joined(ls: Seq<Seq<char>>)
    requires
        forall|i: int| 0 <= i < ls.len() ==> no_newline(#[trigger] ls[i]),
    ensures
        scan(lines(join(ls, "\n"@))) == scan(ls),
{
    lemma_lines_join(ls);
    if ls.len() > 0 {
        let q = ls.drop_last();
        let mq = q.map_values(|l: Seq<char>| strip_cr(l));
        lemma_scan_strip_cr(q);
        if ls.last().len() > 0 {
            lemma_scan_push(mq, ls.last());
            assert(mq.push(ls.last()) =~= lines_of_joined(ls));
        } else {
            assert(mq =~= lines_of_joined(ls));
            lemma_scan_empty_line(scan(q));
            assert(ls.last() =~= Seq::<char>::empty());
        }
        assert(q.push(ls.last()) =~= ls);
        lemma_scan_push(q, ls.last());
    }
}

proof fn lemma_lines_no_newline(s: Seq<char>)
    ensures
        forall|i: int| 0 <= i < lines(s).len() ==> no_newline(#[trigger] lines(s)[i]),
    decreases s.len(),
{
    if s.len() > 0 {
        lemma_find_spec(s, '\n');
        match find(s, '\n') {
            None => {},
            Some(k) => {
                lemma_lines_no_newline(s.skip(k + 1));
                let first = strip_cr(s.take(k));
                assert(no_newline(first)) by {
                    assert forall|j: int| 0 <= j < first.len() implies first[j] != '\n' by {
                        assert(first[j] == s[j]);
                    }
                }
                assert forall|i: int| 0 <= i < lines(s).len() implies no_newline(#[trigger] lines(s)[i]) by {
                    if i > 0 {
                        assert(lines(s)[i] == lines(s.skip(k + 1))[i - 1]);
                    }
                }
            },
        }
    }
}

/// The facts about a line `key=value` that reading it needs.
proof fn lemma_assignment(key: Seq<char>, val: Seq<char>)
    requires
        key.len() > 0,
        val.len() > 0,
        !is_ws(key[0]),
        key[0] != '[',
        key[0] != '#',
        !is_ws(key.last()),
        !is_ws(val[0]),
        !is_ws(val.last()),
        forall|j: int| 0 <= j < key.len() ==> key[j] != '=' && key[j] != '\n',
        no_newline(val),
    ensures
        trim(key + seq!['='] + val) == key + seq!['='] + val,
        !is_header(key + seq!['='] + val),
        !is_comment(key + seq!['='] + val),
        split_once(key + seq!['='] + val, '=') == Some((key, val)),
        trim(key) == key,
        trim(val) == val,
        no_newline(key + seq!['='] + val),
{
    let x = key + seq!['='] + val;
    assert(x[0] == key[0]);
    assert(x.last() == val.last());
    assert(trim_start(x) == x);
    assert(trim_end(x) == x);
    assert(trim_start(key) == key);
    assert(trim_end(key) == key);
    assert(trim_start(val) == val);
    assert(trim_end(val) == val);
    assert forall|j: int| 0 <= j < key.len() implies x[j] != '=' by {
        assert(x[j] == key[j]);
    }
    lemma_find_at(x, '=', key.len() as int);
    assert(x.take(key.len() as int) =~= key);
    assert(x.skip(key.len() as int + 1) =~= val);
    assert forall|j: int| 0 <= j < x.len() implies x[j] != '\n' by {
        if j < key.len() {
            assert(x[j] == key[j]);
        } else if j > key.len() {
            assert(x[j] == val[j - key.len() - 1]);
        }
    }
}

proof fn lemma_literals()
    ensures
        "Hidden="@ == "Hidden"@ + seq!['='],
        "X-GNOME-Autostart-enabled="@ == "X-GNOME-Autostart-enabled"@ + seq!['='],
        "Hidden="@[0] == 'H',
        "X-GNOME-Autostart-enabled="@[0] == 'X',
        "Hidden"@ + "="@ == "Hidden="@,
        "X-GNOME-Autostart-enabled"@ + "="@ == "X-GNOME-Autostart-enabled="@,
        "true"@ != "false"@,
        forall|b: bool| #[trigger] bool_text(b).len() > 0 && !is_ws(bool_text(b)[0]) && !is_ws(bool_text(b).last()) && no_newline(bool_text(b)),
        forall|b: bool| (bool_text(b) == "true"@) == b,
        forall|e: bool| #[trigger] hidden_line(e) == "Hidden"@ + seq!['='] + bool_text(!e),
        forall|e: bool| #[trigger] gnome_line(e) == "X-GNOME-Autostart-enabled"@ + seq!['='] + bool_text(e),
        forall|j: int| 0 <= j < "Hidden"@.len() ==> "Hidden"@[j] != '=' && "Hidden"@[j] != '\n',
        forall|j: int| 0 <= j < "X-GNOME-Autostart-enabled"@.len() ==> "X-GNOME-Autostart-enabled"@[j] != '=' && "X-GNOME-Autostart-enabled"@[j] != '\n',
        "Hidden"@.len() > 0 && !is_ws("Hidden"@[0]) && "Hidden"@[0] != '[' && "Hidden"@[0] != '#'
            && !is_ws("Hidden"@.last()),
        "X-GNOME-Autostart-enabled"@.len() > 0 && !is_ws("X-GNOME-Autostart-enabled"@[0])
            && "X-GNOME-Autostart-enabled"@[0] != '[' && "X-GNOME-Autostart-enabled"@[0] != '#'
            && !is_ws("X-GNOME-Autostart-enabled"@.last()),
        "Hidden"@ != "X-GNOME-Autostart-enabled"@,
        is_header("[Desktop Entry]"@),
{
    reveal_strlit("[Desktop Entry]");
    reveal_strlit("Hidden=");
    reveal_strlit("Hidden");
    reveal_strlit("X-GNOME-Autostart-enabled=");
    reveal_strlit("X-GNOME-Autostart-enabled");
    reveal_strlit("=");
    reveal_strlit("true");
    reveal_strlit("false");
    assert("Hidden="@ =~= "Hidden"@ + seq!['=']);
    assert("X-GNOME-Autostart-enabled="@ =~= "X-GNOME-Autostart-enabled"@ + seq!['=']);
    assert("true"@.len() != "false"@.len());
    assert forall|e: bool| #[trigger] hidden_line(e) == "Hidden"@ + seq!['='] + bool_text(!e) by {
        assert("Hidden="@ + bool_text(!e) =~= "Hidden"@ + seq!['='] + bool_text(!e));
    }
    assert forall|e: bool| #[trigger] gnome_line(e) == "X-GNOME-Autostart-enabled"@ + seq!['='] + bool_text(e) by {
        assert("X-GNOME-Autostart-enabled="@ + bool_text(e) =~= "X-GNOME-Autostart-enabled"@ + seq!['='] + bool_text(e));
    }
    assert forall|b: bool| (bool_text(b) == "true"@) == b by {
        if !b {
            assert(bool_text(b).len() != "true"@.len());
        }
    }
}


/// Every pair of `ps` with key `key` has value `v`.
pub open spec fn values_all(ps: Seq<(Seq<char>, Seq<char>)>, key: Seq<char>, v: Seq<char>) -> bool {
    forall|i: int| 0 <= i < ps.len() && (#[trigger] ps[i]).0 == key ==> ps[i].1 == v
}

/// Some pair of `ps` has key `key`.
pub open spec fn has_key(ps: Seq<(Seq<char>, Seq<char>)>, key: Seq<char>) -> bool {
    exists|i: int| 0 <= i < ps.len() && (#[trigger] ps[i]).0 == key
}

proof fn lemma_pairs_push(ps: Seq<(Seq<char>, Seq<char>)>, x: (Seq<char>, Seq<char>), key: Seq<char>, v: Seq<char>)
    ensures
        values_all(ps, key, v) && (x.0 == key ==> x.1 == v) ==> values_all(ps.push(x), key, v),
        has_key(ps, key) || x.0 == key ==> has_key(ps.push(x), key),
{
    let q = ps.push(x);
    if values_all(ps, key, v) && (x.0 == key ==> x.1 == v) {
        assert forall|i: int| 0 <= i < q.len() && (#[trigger] q[i]).0 == key implies q[i].1 == v by {
            if i < ps.len() {
                assert(q[i] == ps[i]);
            }
        }
    }
    if has_key(ps, key) {
        let i = choose|i: int| 0 <= i < ps.len() && (#[trigger] ps[i]).0 == key;
        assert(q[i] == ps[i]);
    }
    if x.0 == key {
        assert(q[ps.len() as int] == x);
    }
}

proof fn lemma_last_value_of(ps: Seq<(Seq<char>, Seq<char>)>, key: Seq<char>, v: Seq<char>)
    requires
        values_all(ps, key, v),
    ensures
        last_value(ps, key) == None::<Seq<char>> || last_value(ps, key) == Some(v),
        has_key(ps, key) ==> last_value(ps, key) == Some(v),
    decreases ps.len(),
{
    if ps.len() > 0 {
        let q = ps.drop_last();
        assert forall|i: int| 0 <= i < q.len() && (#[trigger] q[i]).0 == key implies q[i].1 == v by {
            assert(q[i] == ps[i]);
        }
        lemma_last_value_of(q, key, v);
        if has_key(ps, key) && ps.last().0 != key {
            let i = choose|i: int| 0 <= i < ps.len() && (#[trigger] ps[i]).0 == key;
            assert(q[i] == ps[i]);
        }
    }
}

/// What holds of the rewrite after the first `k` lines: the output is read
/// in the same group as the input, every `Hidden` and
/// `X-GNOME-Autostart-enabled` value read from it is the one asked for, a
/// `Hidden` value is read once one was written, and a `[Desktop Entry]`
/// group met so far has either been given its `Hidden=` line or is still open.
proof fn lemma_toggle_inv(ls: Seq<Seq<char>>, en: bool, k: int)
    requires
        0 <= k <= ls.len(),
        forall|i: int| 0 <= i < ls.len() ==> no_newline(#[trigger] ls[i]),
        toggle_keys_plain(ls),
    ensures
        ({
            let t = toggle_state(ls.take(k), en);
            let s = scan(t.2);
            &&& s.0 == t.0
            &&& scan(ls.take(k)).0 == t.0
            &&& values_all(s.1, "Hidden"@, bool_text(!en))
            &&& values_all(s.1, "X-GNOME-Autostart-enabled"@, bool_text(en))
            &&& t.1 ==> has_key(s.1, "Hidden"@)
            &&& has_entry_group(ls.take(k)) ==> t.1 || t.0
            &&& forall|i: int| 0 <= i < t.2.len() ==> no_newline(#[trigger] t.2[i])
        }),
    decreases k,
{
    lemma_literals();
    lemma_assignment("Hidden"@, bool_text(!en));
    lemma_assignment("X-GNOME-Autostart-enabled"@, bool_text(en));
    let hk = "Hidden"@;
    let gk = "X-GNOME-Autostart-enabled"@;
    let hl = hidden_line(en);
    let gl = gnome_line(en);
    if k == 0 {
        assert(ls.take(0) =~= Seq::<Seq<char>>::empty());
    } else {
        lemma_toggle_inv(ls, en, k - 1);
        let p = ls.take(k - 1);
        let l = ls[k - 1];
        assert(ls.take(k).drop_last() =~= p);
        assert(ls.take(k).last() == l);
        lemma_scan_push(p, l);
        let t0 = toggle_state(p, en);
        let s0 = scan(t0.2);
        let t1 = toggle_state(ls.take(k), en);
        assert(t1 == toggle_step(t0, l, en));
        let tl = trim(l);
        if has_entry_group(ls.take(k)) && tl != "[Desktop Entry]"@ {
            let i = choose|i: int| 0 <= i < ls.take(k).len() && #[trigger] trim(ls.take(k)[i]) == "[Desktop Entry]"@;
            assert(i != k - 1);
            assert(ls.take(k)[i] == p[i]);
            assert(has_entry_group(p));
        }
        if is_header(tl) {
            let add = t0.0 && !t0.1;
            let mid = if add {
                t0.2.push(hl)
            } else {
                t0.2
            };
            lemma_scan_push(t0.2, hl);
            lemma_scan_push(mid, l);
            assert(t1.2 == mid.push(l));
            let sm = scan(mid);
            if add {
                assert(sm == (true, s0.1.push((hk, bool_text(!en)))));
                lemma_pairs_push(s0.1, (hk, bool_text(!en)), hk, bool_text(!en));
                lemma_pairs_push(s0.1, (hk, bool_text(!en)), gk, bool_text(en));
            }
            assert(scan(t1.2).1 == sm.1);
            assert forall|i: int| 0 <= i < t1.2.len() implies no_newline(#[trigger] t1.2[i]) by {
                if i < t0.2.len() {
                    assert(t1.2[i] == t0.2[i]);
                }
            }
        } else if t0.0 && "Hidden="@.is_prefix_of(tl) {
            lemma_scan_push(t0.2, hl);
            assert(t1.2 == t0.2.push(hl));
            lemma_pairs_push(s0.1, (hk, bool_text(!en)), hk, bool_text(!en));
            lemma_pairs_push(s0.1, (hk, bool_text(!en)), gk, bool_text(en));
            assert forall|i: int| 0 <= i < t1.2.len() implies no_newline(#[trigger] t1.2[i]) by {
                if i < t0.2.len() {
                    assert(t1.2[i] == t0.2[i]);
                }
            }
        } else if t0.0 && "X-GNOME-Autostart-enabled="@.is_prefix_of(tl) {
            lemma_scan_push(t0.2, gl);
            assert(t1.2 == t0.2.push(gl));
            lemma_pairs_push(s0.1, (gk, bool_text(en)), hk, bool_text(!en));
            lemma_pairs_push(s0.1, (gk, bool_text(en)), gk, bool_text(en));
            assert forall|i: int| 0 <= i < t1.2.len() implies no_newline(#[trigger] t1.2[i]) by {
                if i < t0.2.len() {
                    assert(t1.2[i] == t0.2[i]);
                }
            }
        } else {
            lemma_scan_push(t0.2, l);
            assert(t1.2 == t0.2.push(l));
            if t0.0 {
                assert(scan(ls.take(k - 1)).0);
                assert(key_written_plainly(ls[k - 1], hk));
                assert(key_written_plainly(ls[k - 1], gk));
                match split_once(tl, '=') {
                    Some((a, b)) => {
                        assert(trim(a) != hk);
                        assert(trim(a) != gk);
                        lemma_pairs_push(s0.1, (trim(a), trim(b)), hk, bool_text(!en));
                        lemma_pairs_push(s0.1, (trim(a), trim(b)), gk, bool_text(en));
                    },
                    None => {},
                }
            }
            assert forall|i: int| 0 <= i < t1.2.len() implies no_newline(#[trigger] t1.2[i]) by {
                if i < t0.2.len() {
                    assert(t1.2[i] == t0.2[i]);
                }
            }
        }
    }
}

/// Switching an autostart file on or off and reading it back gives the state
/// that was asked for. Switching off needs a `[Desktop Entry]` group to put
/// `Hidden=true` in, and both keys must be written as `Key=value` inside such
/// groups, since only those lines are rewritten.
pub proof fn law_toggle_then_read(content: Seq<char>, path: Seq<char>, source: StartupSource, enabled: bool)
    requires
        toggle_keys_plain(lines(content)),
        enabled || has_entry_group(lines(content)),
    ensures
        autostart_record(toggled_text(content, enabled), path, source).enabled == enabled,
{
    let ls = lines(content);
    let hk = "Hidden"@;
    let gk = "X-GNOME-Autostart-enabled"@;
    lemma_literals();
    lemma_assignment(hk, bool_text(!enabled));
    lemma_lines_no_newline(content);
    lemma_toggle_inv(ls, enabled, ls.len() as int);
    assert(ls.take(ls.len() as int) =~= ls);
    let t = toggle_state(ls, enabled);
    let out = toggled_lines(ls, enabled);
    let hl = hidden_line(enabled);
    if t.0 && !t.1 {
        lemma_scan_push(t.2, hl);
        lemma_pairs_push(scan(t.2).1, (hk, bool_text(!enabled)), hk, bool_text(!enabled));
        lemma_pairs_push(scan(t.2).1, (hk, bool_text(!enabled)), gk, bool_text(enabled));
        assert forall|i: int| 0 <= i < out.len() implies no_newline(#[trigger] out[i]) by {
            if i < t.2.len() {
                assert(out[i] == t.2[i]);
            }
        }
    }
    lemma_scan_of_joined(out);
    let ps = scan(out).1;
    assert(entry_pairs(toggled_text(content, enabled)) == ps);
    lemma_last_value_of(ps, hk, bool_text(!enabled));
    lemma_last_value_of(ps, gk, bool_text(enabled));
}


proof fn lemma_last_value_push(ps: Seq<(Seq<char>, Seq<char>)>, x: (Seq<char>, Seq<char>), key: Seq<char>)
    ensures
        last_value(ps.push(x), key) == (if x.0 == key {
            Some(x.1)
        } else {
            last_value(ps, key)
        }),
{
    assert(ps.push(x).drop_last() =~= ps);
}

/// A trimmed line that starts with `key=` is read as an assignment of `key`.
proof fn lemma_prefixed_key(t: Seq<char>, key: Seq<char>)
    requires
        (key + "="@).is_prefix_of(t),
        key.len() > 0,
        key[0] != '#',
        forall|j: int| 0 <= j < key.len() ==> key[j] != '=',
        trim(key) == key,
    ensures
        !is_comment(t),
        split_once(t, '=') is Some,
        trim(split_once(t, '=').unwrap().0) == key,
{
    reveal_strlit("=");
    assert(t[key.len() as int] == (key + "="@)[key.len() as int]);
    assert forall|j: int| 0 <= j < key.len() implies t[j] != '=' by {
        assert(t[j] == (key + "="@)[j]);
    }
    lemma_find_at(t, '=', key.len() as int);
    assert(t.take(key.len() as int) =~= key);
    assert(t[0] == (key + "="@)[0]);
}

/// Rewriting the first `k` lines leaves the value read for any key other than
/// `Hidden` and `X-GNOME-Autostart-enabled` as it was, and the group read
/// after them too.
proof fn lemma_toggle_keeps(ls: Seq<Seq<char>>, en: bool, k: int, key: Seq<char>)
    requires
        0 <= k <= ls.len(),
        forall|i: int| 0 <= i < ls.len() ==> no_newline(#[trigger] ls[i]),
        key != "Hidden"@,
        key != "X-GNOME-Autostart-enabled"@,
    ensures
        ({
            let t = toggle_state(ls.take(k), en);
            &&& scan(t.2).0 == scan(ls.take(k)).0
            &&& scan(t.2).0 == t.0
            &&& last_value(scan(t.2).1, key) == last_value(scan(ls.take(k)).1, key)
            &&& forall|i: int| 0 <= i < t.2.len() ==> no_newline(#[trigger] t.2[i])
        }),
    decreases k,
{
    lemma_literals();
    lemma_assignment("Hidden"@, bool_text(!en));
    lemma_assignment("X-GNOME-Autostart-enabled"@, bool_text(en));
    let hk = "Hidden"@;
    let gk = "X-GNOME-Autostart-enabled"@;
    let hl = hidden_line(en);
    let gl = gnome_line(en);
    if k == 0 {
        assert(ls.take(0) =~= Seq::<Seq<char>>::empty());
    } else {
        lemma_toggle_keeps(ls, en, k - 1, key);
        let p = ls.take(k - 1);
        let l = ls[k - 1];
        assert(ls.take(k).drop_last() =~= p);
        assert(ls.take(k).last() == l);
        lemma_scan_push(p, l);
        let t0 = toggle_state(p, en);
        let s0 = scan(t0.2);
        let si = scan(p);
        let t1 = toggle_state(ls.take(k), en);
        assert(t1 == toggle_step(t0, l, en));
        let tl = trim(l);
        if is_header(tl) {
            let add = t0.0 && !t0.1;
            let mid = if add {
                t0.2.push(hl)
            } else {
                t0.2
            };
            lemma_scan_push(t0.2, hl);
            lemma_scan_push(mid, l);
            assert(t1.2 == mid.push(l));
            if add {
                lemma_last_value_push(s0.1, (hk, bool_text(!en)), key);
            }
            assert forall|i: int| 0 <= i < t1.2.len() implies no_newline(#[trigger] t1.2[i]) by {
                if i < t0.2.len() {
                    assert(t1.2[i] == t0.2[i]);
                }
            }
        } else if t0.0 && "Hidden="@.is_prefix_of(tl) {
            lemma_scan_push(t0.2, hl);
            assert(t1.2 == t0.2.push(hl));
            lemma_last_value_push(s0.1, (hk, bool_text(!en)), key);
            lemma_prefixed_key(tl, hk);
            let (a, b) = split_once(tl, '=').unwrap();
            lemma_last_value_push(si.1, (trim(a), trim(b)), key);
            assert forall|i: int| 0 <= i < t1.2.len() implies no_newline(#[trigger] t1.2[i]) by {
                if i < t0.2.len() {
                    assert(t1.2[i] == t0.2[i]);
                }
            }
        } else if t0.0 && "X-GNOME-Autostart-enabled="@.is_prefix_of(tl) {
            lemma_scan_push(t0.2, gl);
            assert(t1.2 == t0.2.push(gl));
            lemma_last_value_push(s0.1, (gk, bool_text(en)), key);
            lemma_prefixed_key(tl, gk);
            let (a, b) = split_once(tl, '=').unwrap();
            lemma_last_value_push(si.1, (trim(a), trim(b)), key);
            assert forall|i: int| 0 <= i < t1.2.len() implies no_newline(#[trigger] t1.2[i]) by {
                if i < t0.2.len() {
                    assert(t1.2[i] == t0.2[i]);
                }
            }
        } else {
            lemma_scan_push(t0.2, l);
            assert(t1.2 == t0.2.push(l));
            match split_once(tl, '=') {
                Some((a, b)) => {
                    lemma_last_value_push(s0.1, (trim(a), trim(b)), key);
                    lemma_last_value_push(si.1, (trim(a), trim(b)), key);
                },
                None => {},
            }
            assert forall|i: int| 0 <= i < t1.2.len() implies no_newline(#[trigger] t1.2[i]) by {
                if i < t0.2.len() {
                    assert(t1.2[i] == t0.2[i]);
                }
            }
        }
    }
}

proof fn lemma_toggled_value(content: Seq<char>, enabled: bool, key: Seq<char>)
    requires
        key != "Hidden"@,
        key != "X-GNOME-Autostart-enabled"@,
    ensures
        entry_value(toggled_text(content, enabled), key) == entry_value(content, key),
{
    let ls = lines(content);
    let hk = "Hidden"@;
    lemma_literals();
    lemma_assignment(hk, bool_text(!enabled));
    lemma_lines_no_newline(content);
    lemma_toggle_keeps(ls, enabled, ls.len() as int, key);
    assert(ls.take(ls.len() as int) =~= ls);
    let t = toggle_state(ls, enabled);
    let out = toggled_lines(ls, enabled);
    let hl = hidden_line(enabled);
    if t.0 && !t.1 {
        lemma_scan_push(t.2, hl);
        lemma_last_value_push(scan(t.2).1, (hk, bool_text(!enabled)), key);
        assert forall|i: int| 0 <= i < out.len() implies no_newline(#[trigger] out[i]) by {
            if i < t.2.len() {
                assert(out[i] == t.2[i]);
            }
        }
    }
    lemma_scan_of_joined(out);
}

/// Switching an autostart file on or off keeps the name, command, comment and
/// icon read from it.
pub proof fn law_toggle_keeps_details(content: Seq<char>, path: Seq<char>, source: StartupSource, enabled: bool)
    ensures
        ({
            let before = autostart_record(content, path, source);
            let after = autostart_record(toggled_text(content, enabled), path, source);
            &&& after.name == before.name
            &&& after.command == before.command
            &&& after.comment == before.comment
            &&& after.icon == before.icon
        }),
{
    reveal_strlit("Hidden");
    reveal_strlit("X-GNOME-Autostart-enabled");
    reveal_strlit("Name");
    reveal_strlit("Exec");
    reveal_strlit("Comment");
    reveal_strlit("Icon");
    assert("Name"@.len() != "Hidden"@.len() && "Name"@.len() != "X-GNOME-Autostart-enabled"@.len());
    assert("Exec"@.len() != "Hidden"@.len() && "Exec"@.len() != "X-GNOME-Autostart-enabled"@.len());
    assert("Comment"@.len() != "Hidden"@.len() && "Comment"@.len() != "X-GNOME-Autostart-enabled"@.len());
    assert("Icon"@.len() != "Hidden"@.len() && "Icon"@.len() != "X-GNOME-Autostart-enabled"@.len());
    lemma_toggled_value(content, enabled, "Name"@);
    lemma_toggled_value(content, enabled, "Exec"@);
    lemma_toggled_value(content, enabled, "Comment"@);
    lemma_toggled_value(content, enabled, "Icon"@);
}

} // verus!
