//! The startup page: the entries listed, the filter (by name or by boot
//! time), how entries are split into switchable and protected ones, and
//! what each row says.

use vstd::prelude::*;

use std::time::Instant;

use crate::path::{file_name, path_file_name};
use crate::startup::{entry_records, StartupEntry, StartupRecord, StartupSource};
use crate::text::{
    append_chars, append_str, chars_of, contains, contains_sub, decimal, decimal_chars, string_of,
    strip_char_end, strip_trailing, trim, trim_chars, trim_str,
};
use crate::unicode::{lowercase, to_lowercase};

verus! {

/// The view state of the startup page.
pub struct State {
    pub entries: Vec<StartupEntry>,
    pub last_loaded: Instant,
    pub filter: String,
    pub last_error: Option<String>,
}

/// `r` with its enabled flag set to `enabled`.
pub open spec fn with_enabled(r: StartupRecord, enabled: bool) -> StartupRecord {
    StartupRecord { enabled, ..r }
}

impl State {
    /// The page as first shown, listing `entries`, loaded at `now`.
    pub fn new(entries: Vec<StartupEntry>, now: Instant) -> (r: Self)
        ensures
            r.entries == entries,
            r.last_loaded == now,
            r.filter@ == Seq::<char>::empty(),
            r.last_error is None,
    {
        State { entries, last_loaded: now, filter: string_of(&Vec::new()), last_error: None }
    }

    /// Lists `entries`, loaded at `now`, and forgets the last error.
    pub fn reload(&mut self, entries: Vec<StartupEntry>, now: Instant)
        ensures
            final(self).entries == entries,
            final(self).last_loaded == now,
            final(self).last_error is None,
            final(self).filter == old(self).filter,
    {
        self.entries = entries;
        self.last_loaded = now;
        self.last_error = None;
    }

    /// Takes in the outcome of switching entry `idx` to `enabled`: on success
    /// the entry shows the new state and the error is cleared; on failure the
    /// entries stay and the error says which entry failed and why.
    pub fn record_toggle(&mut self, idx: usize, enabled: bool, outcome: &Result<(), String>)
        requires
            idx < old(self).entries@.len(),
        ensures
            final(self).last_loaded == old(self).last_loaded,
            final(self).filter == old(self).filter,
            match outcome {
                Ok(_) => {
                    &&& entry_records(final(self).entries@) == entry_records(old(self).entries@).update(
                        idx as int,
                        with_enabled(old(self).entries@[idx as int]@, enabled),
                    )
                    &&& final(self).last_error is None
                },
                Err(e) => {
                    &&& final(self).entries == old(self).entries
                    &&& final(self).last_error matches Some(m) && m@ == "Failed to toggle "@
                        + old(self).entries@[idx as int].name@ + ": "@ + e@
                },
            },
    {
        match outcome {
            Ok(_) => {
                let mut e = self.entries[idx].copy();
                e.enabled = enabled;
                let ghost before = entry_records(self.entries@);
                self.entries.set(idx, e);
                assert(entry_records(self.entries@) =~= before.update(
                    idx as int,
                    with_enabled(before[idx as int], enabled),
                ));
                self.last_error = None;
            },
            Err(err) => {
                let mut m = chars_of("Failed to toggle ");
                append_str(&mut m, self.entries[idx].name.as_str());
                append_str(&mut m, ": ");
                append_str(&mut m, err.as_str());
                self.last_error = Some(string_of(&m));
            },
        }
    }
}

// ---------------------------------------------------------------------------
// Filtering
// ---------------------------------------------------------------------------

/// How a boot-time filter compares: at least, above, at most, below, or
/// within a twentieth of a second.
#[derive(Clone, Copy, Debug, PartialEq, Eq, Structural)]
pub enum Op {
    Ge,
    Gt,
    Le,
    Lt,
    Near,
}

/// A filter read as a boot-time comparison: its operator (`>=`, `<=`, `>`,
/// `<`, `=`, or none for `>=`) and the number after it, trimmed and without
/// trailing `s`. Nothing for an empty filter.
pub open spec fn time_filter_split(s: Seq<char>) -> Option<(Op, Seq<char>)> {
    let t = trim(s);
    if t.len() == 0 {
        None
    } else {
        let (op, rest) = if t.len() >= 2 && t[0] == '>' && t[1] == '=' {
            (Op::Ge, t.skip(2))
        } else if t.len() >= 2 && t[0] == '<' && t[1] == '=' {
            (Op::Le, t.skip(2))
        } else if t[0] == '>' {
            (Op::Gt, t.skip(1))
        } else if t[0] == '<' {
            (Op::Lt, t.skip(1))
        } else if t[0] == '=' {
            (Op::Near, t.skip(1))
        } else {
            (Op::Ge, t)
        };
        Some((op, trim(strip_trailing(trim(rest), 's'))))
    }
}

/// The operator of a boot-time filter and the text of its number, which the
/// caller reads as seconds.
pub fn split_time_filter(s: &str) -> (r: Option<(Op, String)>)
    ensures
        match r {
            None => time_filter_split(s@) is None,
            Some((op, n)) => time_filter_split(s@) == Some((op, n@)),
        },
{
    let t = trim_str(s);
    if t.len() == 0 {
        return None;
    }
    let (op, start) = if t.len() >= 2 && t[0] == '>' && t[1] == '=' {
        (Op::Ge, 2)
    } else if t.len() >= 2 && t[0] == '<' && t[1] == '=' {
        (Op::Le, 2)
    } else if t[0] == '>' {
        (Op::Gt, 1)
    } else if t[0] == '<' {
        (Op::Lt, 1)
    } else if t[0] == '=' {
        (Op::Near, 1)
    } else {
        (Op::Ge, 0)
    };
    let rest = crate::text::slice_chars(&t, start, t.len());
    assert(rest@ =~= t@.skip(start as int));
    assert(t@.skip(0) =~= t@);
    let a = trim_chars(&rest);
    let b = strip_char_end(&a, 's');
    let c = trim_chars(&b);
    Some((op, string_of(&c)))
}

/// An entry passes the (lowercased) text filter when it is empty or is found
/// in the entry's lowercased name or command.
pub open spec fn entry_text_match(filter: Seq<char>, e: StartupRecord) -> bool {
    filter.len() == 0 || contains_sub(lowercase(e.name), filter) || contains_sub(lowercase(e.command), filter)
}

/// Entry `i` is kept: by the boot-time comparison the caller made for it when
/// the filter is a boot time, else by the text filter.
pub open spec fn kept(es: Seq<StartupRecord>, filter: Seq<char>, time_keep: Option<Vec<bool>>, i: int) -> bool {
    match time_keep {
        Some(k) => k@[i],
        None => entry_text_match(lowercase(trim(filter)), es[i]),
    }
}

/// The positions of the kept entries that are protected (`critical`) or not,
/// in list order.
pub open spec fn picked(
    es: Seq<StartupRecord>,
    filter: Seq<char>,
    time_keep: Option<Vec<bool>>,
    critical: bool,
    n: int,
) -> Seq<usize>
    decreases n,
{
    if n <= 0 {
        seq![]
    } else {
        let rest = picked(es, filter, time_keep, critical, n - 1);
        if kept(es, filter, time_keep, n - 1) && es[n - 1].critical == critical {
            rest.push((n - 1) as usize)
        } else {
            rest
        }
    }
}

/// The entries that pass the filter are each shown once: among the protected
/// ones when protected, among the others when not; no other entry is shown.
pub proof fn law_partition_shows_kept_once(
    es: Seq<StartupRecord>,
    filter: Seq<char>,
    time_keep: Option<Vec<bool>>,
    n: int,
    i: int,
)
    requires
        0 <= i < n <= usize::MAX,
    ensures
        picked(es, filter, time_keep, true, n).contains(i as usize) <==> (kept(es, filter, time_keep, i)
            && es[i].critical),
        picked(es, filter, time_keep, false, n).contains(i as usize) <==> (kept(es, filter, time_keep, i)
            && !es[i].critical),
        picked(es, filter, time_keep, true, n).no_duplicates(),
        picked(es, filter, time_keep, false, n).no_duplicates(),
    decreases n,
{
    lemma_picked_below(es, filter, time_keep, true, n - 1);
    lemma_picked_below(es, filter, time_keep, false, n - 1);
    lemma_picked_below(es, filter, time_keep, true, n);
    lemma_picked_below(es, filter, time_keep, false, n);
    if i < n - 1 {
        law_partition_shows_kept_once(es, filter, time_keep, n - 1, i);
        let a = picked(es, filter, time_keep, true, n - 1);
        let b = picked(es, filter, time_keep, false, n - 1);
        let last = (n - 1) as usize;
        assert(last != i as usize);
        assert(a.push(last).contains(i as usize) ==> a.contains(i as usize)) by {
            if a.push(last).contains(i as usize) {
                let k = choose|k: int| 0 <= k < a.push(last).len() && a.push(last)[k] == i as usize;
                assert(k < a.len());
                assert(a[k] == i as usize);
            }
        }
        assert(b.push(last).contains(i as usize) ==> b.contains(i as usize)) by {
            if b.push(last).contains(i as usize) {
                let k = choose|k: int| 0 <= k < b.push(last).len() && b.push(last)[k] == i as usize;
                assert(k < b.len());
                assert(b[k] == i as usize);
            }
        }
        if a.contains(i as usize) {
            let k = choose|k: int| 0 <= k < a.len() && a[k] == i as usize;
            assert(a.push(last)[k] == i as usize);
        }
        if b.contains(i as usize) {
            let k = choose|k: int| 0 <= k < b.len() && b[k] == i as usize;
            assert(b.push(last)[k] == i as usize);
        }
    } else {
        let a = picked(es, filter, time_keep, true, n - 1);
        let b = picked(es, filter, time_keep, false, n - 1);
        assert(!a.contains(i as usize));
        assert(!b.contains(i as usize));
        assert(a.push(i as usize)[a.len() as int] == i as usize);
        assert(b.push(i as usize)[b.len() as int] == i as usize);
    }
    if n > 1 {
        lemma_picked_distinct(es, filter, time_keep, n);
    }
}

/// The startup page shows an entry (protected or not) exactly when the
/// caller's boot-time comparison keeps it, for a boot-time filter; for a text
/// filter, when the trimmed, lowercased filter is empty or occurs in the
/// entry's lowercased name or in its lowercased command.
pub proof fn law_startup_filter(
    es: Seq<StartupRecord>,
    filter: Seq<char>,
    time_keep: Option<Vec<bool>>,
    n: int,
    i: int,
)
    requires
        0 <= i < n <= usize::MAX,
    ensures
        (picked(es, filter, time_keep, true, n).contains(i as usize) || picked(
            es,
            filter,
            time_keep,
            false,
            n,
        ).contains(i as usize)) <==> match time_keep {
            Some(k) => k@[i],
            None => {
                let f = lowercase(trim(filter));
                f.len() == 0 || contains_sub(lowercase(es[i].name), f) || contains_sub(lowercase(es[i].command), f)
            },
        },
{
    law_partition_shows_kept_once(es, filter, time_keep, n, i);
}

proof fn lemma_picked_below(es: Seq<StartupRecord>, filter: Seq<char>, time_keep: Option<Vec<bool>>, c: bool, n: int)
    requires
        n <= usize::MAX,
    ensures
        forall|k: int| 0 <= k < picked(es, filter, time_keep, c, n).len() ==> (#[trigger] picked(es, filter, time_keep, c, n)[k]) < n,
    decreases n,
{
    if n > 0 {
        lemma_picked_below(es, filter, time_keep, c, n - 1);
        let rest = picked(es, filter, time_keep, c, n - 1);
        let all = picked(es, filter, time_keep, c, n);
        assert forall|k: int| 0 <= k < all.len() implies (#[trigger] all[k]) < n by {
            if k < rest.len() {
                assert(all[k] == rest[k]);
            }
        }
    }
}

proof fn lemma_picked_distinct(es: Seq<StartupRecord>, filter: Seq<char>, time_keep: Option<Vec<bool>>, n: int)
    requires
        n <= usize::MAX,
    ensures
        picked(es, filter, time_keep, true, n).no_duplicates(),
        picked(es, filter, time_keep, false, n).no_duplicates(),
    decreases n,
{
    if n > 0 {
        lemma_picked_distinct(es, filter, time_keep, n - 1);
        lemma_picked_below(es, filter, time_keep, true, n - 1);
        lemma_picked_below(es, filter, time_keep, false, n - 1);
    }
}

fn text_match(filter: &Vec<char>, e: &StartupEntry) -> (r: bool)
    ensures
        r == entry_text_match(filter@, e@),
{
    if filter.len() == 0 {
        return true;
    }
    if contains(&to_lowercase(&chars_of(e.name.as_str())), filter) {
        return true;
    }
    contains(&to_lowercase(&chars_of(e.command.as_str())), filter)
}

impl State {
    /// The entries shown, split into protected ones and the others, each in
    /// list order. `time_keep`, when the filter is a boot time, holds the
    /// caller's comparison for each entry; otherwise the filter is text.
    pub fn partition(&self, time_keep: &Option<Vec<bool>>) -> (r: (Vec<usize>, Vec<usize>))
        requires
            time_keep matches Some(k) ==> k@.len() == self.entries@.len(),
        ensures
            r.0@ == picked(entry_records(self.entries@), self.filter@, *time_keep, true, self.entries@.len() as int),
            r.1@ == picked(entry_records(self.entries@), self.filter@, *time_keep, false, self.entries@.len() as int),
    {
        let text = to_lowercase(&trim_str(self.filter.as_str()));
        let ghost es = entry_records(self.entries@);
        let mut critical: Vec<usize> = Vec::new();
        let mut normal: Vec<usize> = Vec::new();
        let mut i: usize = 0;
        while i < self.entries.len()
            invariant
                i <= self.entries@.len(),
                es == entry_records(self.entries@),
                text@ == lowercase(trim(self.filter@)),
                time_keep matches Some(k) ==> k@.len() == self.entries@.len(),
                critical@ == picked(es, self.filter@, *time_keep, true, i as int),
                normal@ == picked(es, self.filter@, *time_keep, false, i as int),
            decreases self.entries@.len() - i,
        {
            let keep = match time_keep {
                Some(k) => k[i],
                None => text_match(&text, &self.entries[i]),
            };
            assert(keep == kept(es, self.filter@, *time_keep, i as int));
            if keep {
                if self.entries[i].critical {
                    critical.push(i);
                } else {
                    normal.push(i);
                }
            }
            i += 1;
        }
        (critical, normal)
    }
}

// ---------------------------------------------------------------------------
// What a row says
// ---------------------------------------------------------------------------

/// The name a row shows: the entry's name, or the file name of its path when
/// it has none.
pub open spec fn shown_name(e: StartupRecord) -> Seq<char> {
    if e.name.len() == 0 {
        match file_name(e.path) {
            Some(n) => n,
            None => seq![],
        }
    } else {
        e.name
    }
}

/// The name a row shows.
pub fn display_name(e: &StartupEntry) -> (r: String)
    ensures
        r@ == shown_name(e@),
{
    let n = chars_of(e.name.as_str());
    if n.len() == 0 {
        match path_file_name(&chars_of(e.path.as_str())) {
            Some(f) => string_of(&f),
            None => string_of(&Vec::new()),
        }
    } else {
        string_of(&n)
    }
}

/// The label of a row's switch.
pub fn toggle_label(locked: bool, enabled: bool) -> (r: &'static str)
    ensures
        r@ == (if locked {
            "Protected"@
        } else if enabled {
            "Enabled"@
        } else {
            "Disabled"@
        }),
{
    if locked {
        "Protected"
    } else if enabled {
        "Enabled"
    } else {
        "Disabled"
    }
}

/// The badge that says where an entry comes from.
pub fn scope_badge(s: StartupSource) -> (r: &'static str)
    ensures
        r@ == (match s {
            StartupSource::UserAutostart => "user · autostart"@,
            StartupSource::SystemAutostart => "system · autostart"@,
            StartupSource::SystemdSystem => "system · systemd"@,
            StartupSource::SystemdUser => "user · systemd"@,
        }),
{
    match s {
        StartupSource::UserAutostart => "user · autostart",
        StartupSource::SystemAutostart => "system · autostart",
        StartupSource::SystemdSystem => "system · systemd",
        StartupSource::SystemdUser => "user · systemd",
    }
}

/// A boot time as a row shows it: a text, or a number of milliseconds under
/// a minute that is shown in seconds with two decimals.
pub enum BootTime {
    Text(String),
    Seconds(u64),
}

/// The text of a boot time: a dash when unmeasured, `<1 ms` for zero,
/// milliseconds under a second, minutes and seconds from a minute on; nothing
/// between a second and a minute, which is shown in fractional seconds.
pub open spec fn boot_time_text(ms: Option<u64>) -> Option<Seq<char>> {
    match ms {
        None => Some("—"@),
        Some(m) => if m == 0 {
            Some("<1 ms"@)
        } else if m < 1000 {
            Some(decimal(m as nat) + " ms"@)
        } else if m < 60000 {
            None
        } else {
            Some(decimal((m / 1000 / 60) as nat) + "m "@ + decimal((m / 1000 % 60) as nat) + "s"@)
        },
    }
}

/// A boot time as a row shows it.
pub fn format_boot_time(ms: Option<u64>) -> (r: BootTime)
    ensures
        match r {
            BootTime::Text(t) => boot_time_text(ms) == Some(t@),
            BootTime::Seconds(m) => boot_time_text(ms) is None && ms == Some(m),
        },
{
    match ms {
        None => BootTime::Text(string_of(&chars_of("—"))),
        Some(m) => if m == 0 {
            BootTime::Text(string_of(&chars_of("<1 ms")))
        } else if m < 1000 {
            let mut t = decimal_chars(m);
            append_str(&mut t, " ms");
            BootTime::Text(string_of(&t))
        } else if m < 60000 {
            BootTime::Seconds(m)
        } else {
            let total = m / 1000;
            let mut t = decimal_chars(total / 60);
            append_str(&mut t, "m ");
            let s = decimal_chars(total % 60);
            append_chars(&mut t, &s);
            append_str(&mut t, "s");
            BootTime::Text(string_of(&t))
        },
    }
}

} // verus!
