//! systemd services: reading the unit list that `systemctl list-units` prints,
//! ordering it, and the command lines that list and control units.

use vstd::prelude::*;

use crate::icons::strings_of;
use crate::sorting::{is_permutation, lex_le, permuted, sorted_stably, stable_order, OrderKey, TextKey};
use crate::text::{
    trim, trim_str, chars_of, join, join_chars, lines, slice_chars, split_lines, split_words, string_of, views,
    words,
};

verus! {

/// Whether a unit belongs to the system manager or the user's manager.
#[derive(Clone, Copy, Debug, Default, PartialEq, Eq, Structural)]
pub enum ServiceScope {
    #[default]
    System,
    User,
}

/// One service unit as `systemctl list-units` reports it.
pub struct ServiceInfo {
    pub name: String,
    pub load: String,
    pub active: String,
    pub sub: String,
    pub description: String,
    pub scope: ServiceScope,
}

/// The text of a service record.
pub struct ServiceRecord {
    pub name: Seq<char>,
    pub load: Seq<char>,
    pub active: Seq<char>,
    pub sub: Seq<char>,
    pub description: Seq<char>,
    pub scope: ServiceScope,
}

impl View for ServiceInfo {
    type V = ServiceRecord;

    open spec fn view(&self) -> ServiceRecord {
        ServiceRecord {
            name: self.name@,
            load: self.load@,
            active: self.active@,
            sub: self.sub@,
            description: self.description@,
            scope: self.scope,
        }
    }
}

impl ServiceInfo {
    /// A copy of the record.
    pub fn copy(&self) -> (r: Self)
        ensures
            r@ == self@,
    {
        ServiceInfo {
            name: self.name.clone(),
            load: self.load.clone(),
            active: self.active.clone(),
            sub: self.sub.clone(),
            description: self.description.clone(),
            scope: self.scope,
        }
    }
}

/// The views of a list of service records.
pub open spec fn records(v: Seq<ServiceInfo>) -> Seq<ServiceRecord> {
    v.map_values(|s: ServiceInfo| s@)
}

/// The word at `i`, or nothing.
pub open spec fn word_at(ws: Seq<Seq<char>>, i: int) -> Seq<char> {
    if 0 <= i < ws.len() {
        ws[i]
    } else {
        seq![]
    }
}

/// The words after the fourth.
pub open spec fn rest_words(ws: Seq<Seq<char>>) -> Seq<Seq<char>> {
    if ws.len() > 4 {
        ws.skip(4)
    } else {
        seq![]
    }
}

/// One line of the unit list: unit name, load state, active state, sub state,
/// then the description (its words joined by single spaces). A line without a
/// unit name gives no record.
pub open spec fn service_of_line(line: Seq<char>, scope: ServiceScope) -> Option<ServiceRecord> {
    let ws = words(line);
    if word_at(ws, 0).len() == 0 {
        None
    } else {
        Some(
            ServiceRecord {
                name: word_at(ws, 0),
                load: word_at(ws, 1),
                active: word_at(ws, 2),
                sub: word_at(ws, 3),
                description: join(rest_words(ws), " "@),
                scope,
            },
        )
    }
}

/// The records of the given lines, in order.
pub open spec fn services_of_lines(ls: Seq<Seq<char>>, scope: ServiceScope) -> Seq<ServiceRecord>
    decreases ls.len(),
{
    if ls.len() == 0 {
        seq![]
    } else {
        services_of_lines(ls.drop_last(), scope) + match service_of_line(ls.last(), scope) {
            Some(r) => seq![r],
            None => seq![],
        }
    }
}

/// The records of the output of `systemctl list-units --plain --no-legend`.
pub open spec fn parse_units(text: Seq<char>, scope: ServiceScope) -> Seq<ServiceRecord> {
    services_of_lines(lines(text), scope)
}

fn word_at_exec(ws: &Vec<Vec<char>>, i: usize) -> (r: String)
    ensures
        r@ == word_at(views(ws@), i as int),
{
    if i < ws.len() {
        string_of(&ws[i])
    } else {
        string_of(&Vec::new())
    }
}

fn service_of_line_exec(line: &Vec<char>, scope: ServiceScope) -> (r: Option<ServiceInfo>)
    ensures
        match r {
            Some(s) => service_of_line(line@, scope) == Some(s@),
            None => service_of_line(line@, scope) is None,
        },
{
    let ws = split_words(line);
    let ghost vw = views(ws@);
    if ws.len() == 0 || ws[0].len() == 0 {
        return None;
    }
    let name = word_at_exec(&ws, 0);
    let mut rest: Vec<Vec<char>> = Vec::new();
    if ws.len() > 4 {
        let mut i: usize = 4;
        assert(views(rest@) =~= vw.subrange(4, 4));
        while i < ws.len()
            invariant
                vw == views(ws@),
                4 <= i <= ws.len(),
                rest.len() == i - 4,
                views(rest@) == vw.subrange(4, i as int),
            decreases ws.len() - i,
        {
            let ghost prev = rest@;
            rest.push(slice_chars(&ws[i], 0, ws[i].len()));
            proof {
                assert(rest@.drop_last() =~= prev);
                assert(rest@.last()@ =~= ws@[i as int]@);
                assert(views(rest@) =~= vw.subrange(4, i + 1));
            }
            i += 1;
        }
        assert(vw.subrange(4, vw.len() as int) =~= vw.skip(4));
    }
    assert(views(rest@) =~= rest_words(vw));
    let desc = join_chars(&rest, &chars_of(" "));
    let r = ServiceInfo {
        name,
        load: word_at_exec(&ws, 1),
        active: word_at_exec(&ws, 2),
        sub: word_at_exec(&ws, 3),
        description: string_of(&desc),
        scope,
    };
    Some(r)
}

/// The services listed in the output of `systemctl list-units --plain
/// --no-legend`, in order, each tagged with `scope`.
pub fn parse_service_units(text: &str, scope: ServiceScope) -> (r: Vec<ServiceInfo>)
    ensures
        records(r@) == parse_units(text@, scope),
{
    let ls = split_lines(&chars_of(text));
    let ghost vls = views(ls@);
    let mut out: Vec<ServiceInfo> = Vec::new();
    let mut i: usize = 0;
    assert(vls.take(0) =~= Seq::<Seq<char>>::empty());
    while i < ls.len()
        invariant
            vls == views(ls@),
            vls == lines(text@),
            i <= ls.len(),
            records(out@) == services_of_lines(vls.take(i as int), scope),
        decreases ls.len() - i,
    {
        assert(vls.take(i + 1).drop_last() =~= vls.take(i as int));
        assert(vls.take(i + 1).last() == ls@[i as int]@);
        let ghost prev = out@;
        match service_of_line_exec(&ls[i], scope) {
            Some(s) => {
                out.push(s);
                assert(out@.drop_last() =~= prev);
                assert(records(out@) =~= records(prev).push(out@.last()@));
            },
            None => {
                assert(records(out@) =~= records(prev) + Seq::<ServiceRecord>::empty());
            },
        }
        i += 1;
    }
    assert(vls.take(ls.len() as int) =~= vls);
    out
}

/// `order` arranges `all` by unit name, keeping the input order of units
/// with the same name.
pub open spec fn sorted_by_name(all: Seq<ServiceRecord>, order: Seq<usize>) -> bool {
    &&& is_permutation(order, all.len())
    &&& forall|a: int, b: int|
        0 <= a < b < order.len() ==> lex_le(#[trigger] all[order[a] as int].name, #[trigger] all[order[b] as int].name)
            && (lex_le(all[order[b] as int].name, all[order[a] as int].name) ==> order[a] < order[b])
}

/// All services: the system units, then the user units, stably sorted by
/// unit name. `system_text` and `user_text` are the outputs of `systemctl
/// list-units` for the two managers (empty when the command failed).
pub fn list(system_text: &str, user_text: &str) -> (r: Vec<ServiceInfo>)
    ensures
        exists|order: Seq<usize>|
            #[trigger] sorted_by_name(
                parse_units(system_text@, ServiceScope::System) + parse_units(user_text@, ServiceScope::User),
                order,
            ) && records(r@) == permuted(
                parse_units(system_text@, ServiceScope::System) + parse_units(user_text@, ServiceScope::User),
                order,
            ),
{
    let mut all = parse_service_units(system_text, ServiceScope::System);
    let mut user = parse_service_units(user_text, ServiceScope::User);
    let ghost a = records(all@);
    let ghost b = records(user@);
    all.append(&mut user);
    let ghost va = records(all@);
    assert(va =~= a + b);
    let mut keys: Vec<TextKey> = Vec::new();
    let mut i: usize = 0;
    while i < all.len()
        invariant
            i <= all.len(),
            keys.len() == i,
            forall|q: int| 0 <= q < i ==> #[trigger] keys@[q].text@ == all@[q].name@,
        decreases all.len() - i,
    {
        keys.push(TextKey { text: chars_of(all[i].name.as_str()) });
        i += 1;
    }
    let order = stable_order(&keys);
    let mut out: Vec<ServiceInfo> = Vec::new();
    let mut k: usize = 0;
    while k < order.len()
        invariant
            k <= order.len(),
            va == records(all@),
            is_permutation(order@, all.len() as nat),
            out.len() == k,
            forall|q: int| 0 <= q < k ==> #[trigger] out@[q]@ == va[order@[q] as int],
        decreases order.len() - k,
    {
        out.push(all[order[k]].copy());
        k += 1;
    }
    proof {
        assert(records(out@) =~= permuted(va, order@));
        assert forall|x: int, y: int| 0 <= x < y < order@.len() implies lex_le(
            #[trigger] va[order@[x] as int].name,
            #[trigger] va[order@[y] as int].name,
        ) && (lex_le(va[order@[y] as int].name, va[order@[x] as int].name) ==> order@[x] < order@[y]) by {
            assert(keys@[order@[x] as int].key_le(keys@[order@[y] as int]));
        }
        assert(sorted_by_name(va, order@));
    }
    out
}

/// `--user` for the user's manager, nothing for the system manager.
pub open spec fn scope_flag(scope: ServiceScope) -> Seq<Seq<char>> {
    match scope {
        ServiceScope::User => seq!["--user"@],
        ServiceScope::System => seq![],
    }
}

fn args_of(scope: ServiceScope, rest: Vec<Vec<char>>) -> (r: Vec<String>)
    ensures
        crate::text::string_views(r@) == scope_flag(scope) + views(rest@),
{
    let mut all: Vec<Vec<char>> = Vec::new();
    if scope == ServiceScope::User {
        all.push(chars_of("--user"));
    }
    let mut rest = rest;
    let ghost a = views(all@);
    let ghost b = views(rest@);
    all.append(&mut rest);
    assert(views(all@) =~= a + b);
    assert(a =~= scope_flag(scope));
    strings_of(&all)
}

/// Arguments of `systemctl` that list the service units of a manager.
pub fn list_units_args(scope: ServiceScope) -> (r: Vec<String>)
    ensures
        crate::text::string_views(r@) == scope_flag(scope) + seq![
            "list-units"@,
            "--type=service"@,
            "--all"@,
            "--no-legend"@,
            "--plain"@,
            "--no-pager"@,
        ],
{
    let rest = vec![
        chars_of("list-units"),
        chars_of("--type=service"),
        chars_of("--all"),
        chars_of("--no-legend"),
        chars_of("--plain"),
        chars_of("--no-pager"),
    ];
    let ghost expected = seq![
        "list-units"@,
        "--type=service"@,
        "--all"@,
        "--no-legend"@,
        "--plain"@,
        "--no-pager"@,
    ];
    assert(views(rest@) =~= expected);
    args_of(scope, rest)
}

/// Arguments of `systemctl` that apply `action` (start, stop, restart, ...) to
/// the unit `name` of a manager.
pub fn control_args(name: &str, action: &str, scope: ServiceScope) -> (r: Vec<String>)
    ensures
        crate::text::string_views(r@) == scope_flag(scope) + seq![action@, name@],
{
    let rest = vec![chars_of(action), chars_of(name)];
    assert(views(rest@) =~= seq![action@, name@]);
    args_of(scope, rest)
}


/// What a finished `systemctl` run comes to: success, or the failure its
/// standard error gives, trimmed.
pub fn command_outcome(success: bool, stderr: &str) -> (r: Result<(), String>)
    ensures
        success ==> r is Ok,
        !success ==> (r matches Err(m) && m@ == trim(stderr@)),
{
    if success {
        Ok(())
    } else {
        Err(string_of(&trim_str(stderr)))
    }
}

} // verus!
