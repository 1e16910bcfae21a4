//! The services page: the units listed, the filter, the "running only"
//! switch and the message left by the last action.

use vstd::prelude::*;

use std::time::Instant;

use crate::services::{list, parse_units, records, sorted_by_name, ServiceInfo, ServiceRecord, ServiceScope};
use crate::sorting::permuted;
use crate::text::{append_str, chars_eq_str, chars_of, contains, contains_sub, string_of};
use crate::ui::Tone;
use crate::unicode::{lowercase, to_lowercase};

verus! {

/// `entries` are the units listed from the two `systemctl list-units`
/// outputs: system units then user units, stably sorted by name.
pub open spec fn listed(system_text: Seq<char>, user_text: Seq<char>, entries: Seq<ServiceRecord>) -> bool {
    let all = parse_units(system_text, ServiceScope::System) + parse_units(user_text, ServiceScope::User);
    exists|order: Seq<usize>| #[trigger] sorted_by_name(all, order) && entries == permuted(all, order)
}

/// The view state of the services page.
pub struct State {
    pub entries: Vec<ServiceInfo>,
    pub last_loaded: Instant,
    pub filter: String,
    pub last_message: Option<(bool, String)>,
    pub show_only_running: bool,
}

impl State {
    /// The page as first shown, listing the units of the two outputs, loaded
    /// at `now`.
    pub fn new(system_text: &str, user_text: &str, now: Instant) -> (r: Self)
        ensures
            listed(system_text@, user_text@, records(r.entries@)),
            r.last_loaded == now,
            r.filter@ == Seq::<char>::empty(),
            r.last_message is None,
            !r.show_only_running,
    {
        State {
            entries: list(system_text, user_text),
            last_loaded: now,
            filter: string_of(&Vec::new()),
            last_message: None,
            show_only_running: false,
        }
    }
}

/// Lists the units again from fresh `systemctl list-units` outputs, loaded at
/// `now`; the filter, the switch and the message stay.
pub fn refresh(state: &mut State, system_text: &str, user_text: &str, now: Instant)
    ensures
        listed(system_text@, user_text@, records(final(state).entries@)),
        final(state).last_loaded == now,
        final(state).filter == old(state).filter,
        final(state).last_message == old(state).last_message,
        final(state).show_only_running == old(state).show_only_running,
{
    state.entries = list(system_text, user_text);
    state.last_loaded = now;
}

/// A unit is shown unless "running only" is on and it is not active, or the
/// (lowercased) filter is found in neither its lowercased name nor its
/// lowercased description.
pub open spec fn service_shown(filter: Seq<char>, only_running: bool, s: ServiceRecord) -> bool {
    &&& !(only_running && s.active != "active"@)
    &&& (filter.len() == 0 || contains_sub(lowercase(s.name), filter) || contains_sub(
        lowercase(s.description),
        filter,
    ))
}

/// The positions of the units shown, in list order.
pub open spec fn shown_services(entries: Seq<ServiceRecord>, filter: Seq<char>, only_running: bool) -> Seq<usize>
    decreases entries.len(),
{
    if entries.len() == 0 {
        seq![]
    } else {
        let rest = shown_services(entries.drop_last(), filter, only_running);
        if service_shown(filter, only_running, entries.last()) {
            rest.push((entries.len() - 1) as usize)
        } else {
            rest
        }
    }
}

proof fn lemma_shown_below(entries: Seq<ServiceRecord>, filter: Seq<char>, only_running: bool)
    requires
        entries.len() <= usize::MAX,
    ensures
        forall|k: int|
            0 <= k < shown_services(entries, filter, only_running).len() ==> (#[trigger] shown_services(
                entries,
                filter,
                only_running,
            )[k]) < entries.len(),
    decreases entries.len(),
{
    if entries.len() > 0 {
        let q = entries.drop_last();
        lemma_shown_below(q, filter, only_running);
        let rest = shown_services(q, filter, only_running);
        let all = shown_services(entries, filter, only_running);
        assert forall|k: int| 0 <= k < all.len() implies (#[trigger] all[k]) < entries.len() by {
            if k < rest.len() {
                assert(all[k] == rest[k]);
            }
        }
    }
}

/// The services page shows a unit exactly when it passes the "running only"
/// switch (its active state is `active`, or the switch is off) and the
/// lowercased filter is empty or occurs in its lowercased name or in its
/// lowercased description.
pub proof fn law_services_shown(entries: Seq<ServiceRecord>, filter: Seq<char>, only_running: bool, i: int)
    requires
        0 <= i < entries.len() <= usize::MAX,
    ensures
        shown_services(entries, lowercase(filter), only_running).contains(i as usize) <==> ((!only_running
            || entries[i].active == "active"@) && (lowercase(filter).len() == 0 || contains_sub(
            lowercase(entries[i].name),
            lowercase(filter),
        ) || contains_sub(lowercase(entries[i].description), lowercase(filter)))),
    decreases entries.len(),
{
    let f = lowercase(filter);
    let q = entries.drop_last();
    let rest = shown_services(q, f, only_running);
    let all = shown_services(entries, f, only_running);
    lemma_shown_below(q, f, only_running);
    if i < entries.len() - 1 {
        law_services_shown(q, filter, only_running, i);
        assert(q[i] == entries[i]);
        let last = (entries.len() - 1) as usize;
        if all.contains(i as usize) {
            let k = choose|k: int| 0 <= k < all.len() && all[k] == i as usize;
            if k < rest.len() {
                assert(rest[k] == all[k]);
            }
        }
        if rest.contains(i as usize) {
            let k = choose|k: int| 0 <= k < rest.len() && rest[k] == i as usize;
            assert(all[k] == rest[k]);
        }
    } else {
        assert(!rest.contains(i as usize));
        if service_shown(f, only_running, entries.last()) {
            assert(all[rest.len() as int] == i as usize);
        }
    }
}

fn shown(filter: &Vec<char>, only_running: bool, s: &ServiceInfo) -> (r: bool)
    ensures
        r == service_shown(filter@, only_running, s@),
{
    if only_running && !chars_eq_str(&chars_of(s.active.as_str()), "active") {
        return false;
    }
    if filter.len() == 0 {
        return true;
    }
    if contains(&to_lowercase(&chars_of(s.name.as_str())), filter) {
        return true;
    }
    contains(&to_lowercase(&chars_of(s.description.as_str())), filter)
}

impl State {
    /// The positions of the units shown under the current filter and switch.
    pub fn visible_rows(&self) -> (r: Vec<usize>)
        ensures
            r@ == shown_services(records(self.entries@), lowercase(self.filter@), self.show_only_running),
    {
        let filter = to_lowercase(&chars_of(self.filter.as_str()));
        let ghost es = records(self.entries@);
        let mut r: Vec<usize> = Vec::new();
        let mut i: usize = 0;
        while i < self.entries.len()
            invariant
                i <= self.entries@.len(),
                es == records(self.entries@),
                filter@ == lowercase(self.filter@),
                r@ == shown_services(es.take(i as int), filter@, self.show_only_running),
            decreases self.entries@.len() - i,
        {
            assert(es.take(i + 1).drop_last() =~= es.take(i as int));
            assert(es.take(i + 1).last() == self.entries@[i as int]@);
            if shown(&filter, self.show_only_running, &self.entries[i]) {
                r.push(i);
            }
            i += 1;
        }
        assert(es.take(self.entries@.len() as int) =~= es);
        r
    }

    /// Leaves the message for the outcome of `action` on the unit `name`.
    pub fn record_action(&mut self, action: &str, name: &str, outcome: &Result<(), String>)
        ensures
            final(self).last_message matches Some((ok, m)) && (ok, m@) == action_text(action@, name@, *outcome),
            final(self).entries == old(self).entries,
            final(self).last_loaded == old(self).last_loaded,
            final(self).filter == old(self).filter,
            final(self).show_only_running == old(self).show_only_running,
    {
        self.last_message = Some(action_message(action, name, outcome));
    }
}

/// Whether `action` on the unit `name` succeeded, and the message that says
/// so: `"<action> <name> ok"`, or `"<action> <name>: <error>"`.
pub open spec fn action_text(action: Seq<char>, name: Seq<char>, outcome: Result<(), String>) -> (bool, Seq<char>) {
    match outcome {
        Ok(_) => (true, action + " "@ + name + " ok"@),
        Err(e) => (false, action + " "@ + name + ": "@ + e@),
    }
}

/// The message for the outcome of `action` on the unit `name`.
pub fn action_message(action: &str, name: &str, outcome: &Result<(), String>) -> (r: (bool, String))
    ensures
        (r.0, r.1@) == action_text(action@, name@, *outcome),
{
    let mut m = chars_of(action);
    append_str(&mut m, " ");
    append_str(&mut m, name);
    match outcome {
        Ok(_) => {
            append_str(&mut m, " ok");
            (true, string_of(&m))
        },
        Err(e) => {
            append_str(&mut m, ": ");
            append_str(&mut m, e.as_str());
            (false, string_of(&m))
        },
    }
}

/// How a scope is shown in the table.
pub fn scope_str(s: ServiceScope) -> (r: &'static str)
    ensures
        r@ == (match s {
            ServiceScope::System => "system"@,
            ServiceScope::User => "user"@,
        }),
{
    match s {
        ServiceScope::System => "system",
        ServiceScope::User => "user",
    }
}

/// The colour role of an active state.
pub open spec fn active_tone_of(s: Seq<char>) -> Tone {
    if s == "active"@ {
        Tone::Good
    } else if s == "activating"@ || s == "reloading"@ {
        Tone::Warning
    } else if s == "failed"@ {
        Tone::Failure
    } else {
        Tone::Dim
    }
}

/// The colour role of an active state: active is good, activating and
/// reloading are warnings, failed is a failure, anything else is dim.
pub fn active_tone(s: &str) -> (r: Tone)
    ensures
        r == active_tone_of(s@),
{
    let c = chars_of(s);
    if chars_eq_str(&c, "active") {
        Tone::Good
    } else if chars_eq_str(&c, "activating") || chars_eq_str(&c, "reloading") {
        Tone::Warning
    } else if chars_eq_str(&c, "failed") {
        Tone::Failure
    } else {
        Tone::Dim
    }
}

} // verus!
