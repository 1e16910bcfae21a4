//! The process table: its sort column, filter, selection and expanded
//! groups, and how the rows shown are chosen, grouped and ordered.

use vstd::prelude::*;

use crate::sorting::{directed_le, is_permutation, permuted, sorted_stably, stable_order, OrderKey, SortItem, lemma_lex_le_total, lemma_lex_lt_trans, lex_le, lex_le_exec, lex_lt};
use crate::text::{chars_eq, chars_eq_str, chars_of, contains, contains_sub, decimal, decimal_chars, trim, trim_str, string_of};
use crate::ui::Tone;
use crate::unicode::{lowercase, to_lowercase};

verus! {

/// The column the table is sorted by.
#[derive(Clone, Copy, Debug, Default, PartialEq, Eq, Structural)]
pub enum SortKey {
    Name,
    Pid,
    User,
    #[default]
    Cpu,
    Mem,
    Disk,
    Status,
}

/// The sort column and direction after a click on the header of `key`: the
/// same column flips direction; another column starts descending for the
/// CPU, memory and disk columns and ascending for the others.
pub open spec fn clicked(sort: SortKey, desc: bool, key: SortKey) -> (SortKey, bool) {
    if sort == key {
        (sort, !desc)
    } else {
        (key, key == SortKey::Cpu || key == SortKey::Mem || key == SortKey::Disk)
    }
}

/// A group name expanded if it was collapsed, collapsed if it was expanded.
pub open spec fn toggled_name(names: Set<Seq<char>>, name: Seq<char>) -> Set<Seq<char>> {
    if names.contains(name) {
        names.remove(name)
    } else {
        names.insert(name)
    }
}

/// The filter as it is matched: trimmed and lowercased.
pub open spec fn normalized(filter: Seq<char>) -> Seq<char> {
    lowercase(trim(filter))
}

/// The view state of the process table.
pub struct State {
    sort: SortKey,
    descending: bool,
    selected_pid: Option<u32>,
    expanded: Vec<String>,
    filter: String,
}

impl State {
    #[verifier::type_invariant]
    spec fn names_distinct(self) -> bool {
        forall|a: int, b: int| 0 <= a < b < self.expanded@.len() ==> self.expanded@[a]@ != self.expanded@[b]@
    }

    /// The column sorted by.
    pub closed spec fn sort_key(self) -> SortKey {
        self.sort
    }

    /// Whether the sort is descending.
    pub closed spec fn is_descending(self) -> bool {
        self.descending
    }

    /// The process selected, if any.
    pub closed spec fn selection(self) -> Option<u32> {
        self.selected_pid
    }

    /// The names of the groups shown expanded.
    pub closed spec fn expanded_names(self) -> Set<Seq<char>> {
        Set::new(|n: Seq<char>| exists|i: int| 0 <= i < self.expanded@.len() && #[trigger] self.expanded@[i]@ == n)
    }

    /// The filter as typed.
    pub closed spec fn filter_text(self) -> Seq<char> {
        self.filter@
    }

    /// The table as first shown: sorted by CPU, descending, nothing selected,
    /// expanded or filtered.
    pub fn new() -> (r: Self)
        ensures
            r.sort_key() == SortKey::Cpu,
            r.is_descending(),
            r.selection() is None,
            r.expanded_names() == Set::<Seq<char>>::empty(),
            r.filter_text() == Seq::<char>::empty(),
    {
        let r = State {
            sort: SortKey::Cpu,
            descending: true,
            selected_pid: None,
            expanded: Vec::new(),
            filter: string_of(&Vec::new()),
        };
        assert(r.expanded_names() =~= Set::<Seq<char>>::empty());
        r
    }

    /// The column sorted by.
    pub fn sort(&self) -> (r: SortKey)
        ensures
            r == self.sort_key(),
    {
        self.sort
    }

    /// Whether the sort is descending.
    pub fn descending(&self) -> (r: bool)
        ensures
            r == self.is_descending(),
    {
        self.descending
    }

    /// The process selected, if any.
    pub fn selected_pid(&self) -> (r: Option<u32>)
        ensures
            r == self.selection(),
    {
        self.selected_pid
    }

    /// Which of the arrows of the header of `key` are lit: the up arrow when
    /// the table is sorted by `key` ascending, the down arrow when descending.
    pub fn header_arrows(&self, key: SortKey) -> (r: (bool, bool))
        ensures
            r == (self.sort_key() == key && !self.is_descending(), self.sort_key() == key
                && self.is_descending()),
    {
        let active = self.sort == key;
        (active && !self.descending, active && self.descending)
    }

    /// A click on the header of `key`.
    pub fn click_header(&mut self, key: SortKey)
        ensures
            (final(self).sort_key(), final(self).is_descending()) == clicked(
                old(self).sort_key(),
                old(self).is_descending(),
                key,
            ),
            final(self).selection() == old(self).selection(),
            final(self).expanded_names() == old(self).expanded_names(),
            final(self).filter_text() == old(self).filter_text(),
    {
        proof {
            use_type_invariant(&*self);
        }
        if self.sort == key {
            self.descending = !self.descending;
        } else {
            self.sort = key;
            self.descending = key == SortKey::Cpu || key == SortKey::Mem || key == SortKey::Disk;
        }
    }

    /// Selects the process `pid`.
    pub fn select(&mut self, pid: u32)
        ensures
            final(self).selection() == Some(pid),
            final(self).sort_key() == old(self).sort_key(),
            final(self).is_descending() == old(self).is_descending(),
            final(self).expanded_names() == old(self).expanded_names(),
            final(self).filter_text() == old(self).filter_text(),
    {
        proof {
            use_type_invariant(&*self);
        }
        self.selected_pid = Some(pid);
    }

    /// Drops the selection, as after ending or killing the selected process.
    pub fn clear_selection(&mut self)
        ensures
            final(self).selection() is None,
            final(self).sort_key() == old(self).sort_key(),
            final(self).is_descending() == old(self).is_descending(),
            final(self).expanded_names() == old(self).expanded_names(),
            final(self).filter_text() == old(self).filter_text(),
    {
        proof {
            use_type_invariant(&*self);
        }
        self.selected_pid = None;
    }

    /// The filter as typed.
    pub fn filter(&self) -> (r: String)
        ensures
            r@ == self.filter_text(),
    {
        self.filter.clone()
    }

    /// Replaces the filter.
    pub fn set_filter(&mut self, text: &str)
        ensures
            final(self).filter_text() == text@,
            final(self).selection() == old(self).selection(),
            final(self).sort_key() == old(self).sort_key(),
            final(self).is_descending() == old(self).is_descending(),
            final(self).expanded_names() == old(self).expanded_names(),
    {
        proof {
            use_type_invariant(&*self);
        }
        self.filter = string_of(&chars_of(text));
    }

    /// The filter as it is matched: trimmed and lowercased.
    pub fn normalized_filter(&self) -> (r: String)
        ensures
            r@ == normalized(self.filter_text()),
            r@.len() == 0 <==> trim(self.filter_text()).len() == 0,
    {
        let t = trim_str(self.filter.as_str());
        string_of(&to_lowercase(&t))
    }

    fn position(&self, name: &Vec<char>) -> (r: Option<usize>)
        ensures
            match r {
                Some(i) => i < self.expanded@.len() && self.expanded@[i as int]@ == name@,
                None => forall|i: int| 0 <= i < self.expanded@.len() ==> self.expanded@[i]@ != name@,
            },
    {
        let mut i: usize = 0;
        while i < self.expanded.len()
            invariant
                i <= self.expanded@.len(),
                forall|j: int| 0 <= j < i ==> self.expanded@[j]@ != name@,
            decreases self.expanded@.len() - i,
        {
            let e = chars_of(self.expanded[i].as_str());
            if crate::text::chars_eq(&e, name) {
                return Some(i);
            }
            i += 1;
        }
        None
    }

    /// Whether the group `name` is shown expanded.
    pub fn is_expanded(&self, name: &str) -> (r: bool)
        ensures
            r == self.expanded_names().contains(name@),
    {
        let n = chars_of(name);
        match self.position(&n) {
            Some(i) => {
                assert(self.expanded@[i as int]@ == name@);
                true
            },
            None => false,
        }
    }

    /// A click on the header of the group `name`: it collapses if expanded
    /// and expands if collapsed.
    pub fn toggle_group(&mut self, name: &str)
        ensures
            final(self).expanded_names() == toggled_name(old(self).expanded_names(), name@),
            final(self).selection() == old(self).selection(),
            final(self).sort_key() == old(self).sort_key(),
            final(self).is_descending() == old(self).is_descending(),
            final(self).filter_text() == old(self).filter_text(),
    {
        proof {
            use_type_invariant(&*self);
        }
        let n = chars_of(name);
        let ghost before = self.expanded@;
        let ghost names = self.expanded_names();
        match self.position(&n) {
            Some(i) => {
                let mut list: Vec<String> = Vec::new();
                std::mem::swap(&mut list, &mut self.expanded);
                list.remove(i);
                proof {
                    assert forall|a: int, b: int| 0 <= a < b < list@.len() implies list@[a]@ != list@[b]@ by {
                        let a0 = if a < i { a } else { a + 1 };
                        let b0 = if b < i { b } else { b + 1 };
                        assert(list@[a] == before[a0]);
                        assert(list@[b] == before[b0]);
                    }
                }
                self.expanded = list;
                proof {
                    let now = self.expanded_names();
                    assert forall|x: Seq<char>| now.contains(x) == names.remove(name@).contains(x) by {
                        if now.contains(x) {
                            let j = choose|j: int| 0 <= j < self.expanded@.len() && #[trigger] self.expanded@[j]@ == x;
                            let j0 = if j < i { j } else { j + 1 };
                            assert(self.expanded@[j] == before[j0]);
                            assert(j0 != i);
                            assert(x != name@);
                        }
                        if names.remove(name@).contains(x) {
                            let j0 = choose|j: int| 0 <= j < before.len() && #[trigger] before[j]@ == x;
                            assert(j0 != i);
                            let j = if j0 < i { j0 } else { j0 - 1 };
                            assert(self.expanded@[j] == before[j0]);
                        }
                    }
                    assert(now =~= names.remove(name@));
                }
            },
            None => {
                let mut list: Vec<String> = Vec::new();
                std::mem::swap(&mut list, &mut self.expanded);
                list.push(string_of(&n));
                proof {
                    assert forall|a: int, b: int| 0 <= a < b < list@.len() implies list@[a]@ != list@[b]@ by {
                        if b < before.len() {
                            assert(list@[a] == before[a] && list@[b] == before[b]);
                        } else {
                            assert(list@[a] == before[a]);
                        }
                    }
                }
                self.expanded = list;
                proof {
                    let now = self.expanded_names();
                    assert forall|x: Seq<char>| now.contains(x) == names.insert(name@).contains(x) by {
                        if now.contains(x) {
                            let j = choose|j: int| 0 <= j < self.expanded@.len() && #[trigger] self.expanded@[j]@ == x;
                            if j < before.len() {
                                assert(self.expanded@[j] == before[j]);
                            }
                        }
                        if names.contains(x) {
                            let j = choose|j: int| 0 <= j < before.len() && #[trigger] before[j]@ == x;
                            assert(self.expanded@[j] == before[j]);
                        }
                        if x == name@ {
                            assert(self.expanded@[before.len() as int]@ == x);
                        }
                    }
                    assert(now =~= names.insert(name@));
                }
            },
        }
    }
}


/// Clicking the header of the column already sorted by twice leaves the sort
/// as it was.
pub proof fn law_click_twice(sort: SortKey, desc: bool)
    ensures
        clicked(clicked(sort, desc, sort).0, clicked(sort, desc, sort).1, sort) == (sort, desc),
{
}

/// Clicking another column's header sorts by it, whatever the direction was.
pub proof fn law_click_sorts_by(sort: SortKey, desc: bool, key: SortKey)
    ensures
        clicked(sort, desc, key).0 == key,
{
}

/// Toggling a group twice leaves the expanded groups as they were.
pub proof fn law_toggle_group_twice(names: Set<Seq<char>>, name: Seq<char>)
    ensures
        toggled_name(toggled_name(names, name), name) == names,
{
    if names.contains(name) {
        assert(names.remove(name).insert(name) =~= names);
    } else {
        assert(names.insert(name).remove(name) =~= names);
    }
}

// ---------------------------------------------------------------------------
// Rows: filtering and grouping by name
// ---------------------------------------------------------------------------

/// What the table reads of a process. The CPU and disk figures are given as
/// ranks: integers ordered as the figures are.
pub struct ProcRow {
    pub pid: u32,
    pub name: String,
    pub user: String,
    pub status: String,
    pub mem_bytes: u64,
    pub cpu_rank: u64,
    pub disk_rank: u64,
}

/// A process passes the (normalized) filter when the filter is empty or is
/// found in its lowercased name or in its decimal PID.
pub open spec fn row_matches(filter: Seq<char>, name: Seq<char>, pid: u32) -> bool {
    filter.len() == 0 || contains_sub(lowercase(name), filter) || contains_sub(decimal(pid as nat), filter)
}

/// Whether a process passes the normalized filter `filter`.
pub fn process_matches(filter: &str, name: &str, pid: u32) -> (r: bool)
    ensures
        r == row_matches(filter@, name@, pid),
{
    let f = chars_of(filter);
    if f.len() == 0 {
        return true;
    }
    let lower = to_lowercase(&chars_of(name));
    if contains(&lower, &f) {
        return true;
    }
    let digits = decimal_chars(pid as u64);
    contains(&digits, &f)
}


/// The processes of one name that pass the filter, by their positions in the
/// process list, in list order.
pub struct ProcGroup {
    pub name: String,
    pub members: Vec<usize>,
}

/// Row `m` passes the filter and is named `name`.
pub open spec fn member_ok(rows: Seq<ProcRow>, filter: Seq<char>, name: Seq<char>, m: usize) -> bool {
    m < rows.len() && rows[m as int].name@ == name && row_matches(filter, name, rows[m as int].pid)
}

/// Row `i` is a member of one of the groups.
pub open spec fn in_groups(gs: Seq<ProcGroup>, i: int) -> bool {
    exists|g: int, j: int| 0 <= g < gs.len() && 0 <= j < gs[g].members@.len() && gs[g].members@[j] == i
}

/// `gs` groups the rows before `upto` that pass the filter by name: one
/// group per name, in name order (as a `BTreeMap` keyed by name iterates),
/// each holding exactly the passing rows of its name, in list order.
pub open spec fn grouped(rows: Seq<ProcRow>, filter: Seq<char>, gs: Seq<ProcGroup>, upto: int) -> bool {
    &&& forall|a: int, b: int| 0 <= a < b < gs.len() ==> lex_lt(#[trigger] gs[a].name@, #[trigger] gs[b].name@)
    &&& forall|g: int| 0 <= g < gs.len() ==> (#[trigger] gs[g]).members@.len() > 0
    &&& forall|g: int, j: int|
        0 <= g < gs.len() && 0 <= j < gs[g].members@.len() ==> member_ok(rows, filter, gs[g].name@, #[trigger] gs[g].members@[j])
            && gs[g].members@[j] < upto
    &&& forall|g: int, j: int, k: int|
        0 <= g < gs.len() && 0 <= j < k < gs[g].members@.len() ==> #[trigger] gs[g].members@[j] < #[trigger] gs[g].members@[k]
    &&& forall|i: int| 0 <= i < upto && row_matches(filter, rows[i].name@, rows[i].pid) ==> #[trigger] in_groups(gs, i)
}

fn find_group(groups: &Vec<ProcGroup>, name: &Vec<char>) -> (r: Option<usize>)
    ensures
        match r {
            Some(k) => k < groups@.len() && groups@[k as int].name@ == name@,
            None => forall|g: int| 0 <= g < groups@.len() ==> groups@[g].name@ != name@,
        },
{
    let mut k: usize = 0;
    while k < groups.len()
        invariant
            k <= groups@.len(),
            forall|g: int| 0 <= g < k ==> groups@[g].name@ != name@,
        decreases groups@.len() - k,
    {
        if chars_eq(&chars_of(groups[k].name.as_str()), name) {
            return Some(k);
        }
        k += 1;
    }
    None
}

fn insert_position(groups: &Vec<ProcGroup>, name: &Vec<char>) -> (p: usize)
    requires
        forall|a: int, b: int| 0 <= a < b < groups@.len() ==> lex_lt(#[trigger] groups@[a].name@, #[trigger] groups@[b].name@),
        forall|g: int| 0 <= g < groups@.len() ==> groups@[g].name@ != name@,
    ensures
        p <= groups@.len(),
        forall|q: int| 0 <= q < p ==> lex_lt(#[trigger] groups@[q].name@, name@),
        forall|q: int| p <= q < groups@.len() ==> lex_lt(name@, #[trigger] groups@[q].name@),
{
    let mut p: usize = 0;
    while p < groups.len() && lex_le_exec(&chars_of(groups[p].name.as_str()), name)
        invariant
            p <= groups@.len(),
            forall|g: int| 0 <= g < groups@.len() ==> groups@[g].name@ != name@,
            forall|q: int| 0 <= q < p ==> lex_lt(#[trigger] groups@[q].name@, name@),
        decreases groups@.len() - p,
    {
        p += 1;
    }
    proof {
        if p < groups@.len() {
            let np = groups@[p as int].name@;
            lemma_lex_le_total(np, name@);
            assert(lex_lt(name@, np));
            assert forall|q: int| p <= q < groups@.len() implies lex_lt(name@, #[trigger] groups@[q].name@) by {
                if q > p {
                    assert(lex_lt(np, groups@[q].name@));
                    lemma_lex_lt_trans(name@, np, groups@[q].name@);
                }
            }
        }
    }
    p
}

/// The processes that pass the normalized filter `filter`, grouped by name.
pub fn group_processes(rows: &Vec<ProcRow>, filter: &str) -> (r: Vec<ProcGroup>)
    ensures
        grouped(rows@, filter@, r@, rows@.len() as int),
{
    let mut groups: Vec<ProcGroup> = Vec::new();
    let mut i: usize = 0;
    while i < rows.len()
        invariant
            i <= rows@.len(),
            grouped(rows@, filter@, groups@, i as int),
        decreases rows@.len() - i,
    {
        let ghost old_groups = groups@;
        if process_matches(filter, rows[i].name.as_str(), rows[i].pid) {
            let name = chars_of(rows[i].name.as_str());
            match find_group(&groups, &name) {
                Some(k) => {
                    let mut ms = groups[k].members.clone();
                    assert(ms@ =~= old_groups[k as int].members@);
                    ms.push(i);
                    let g = ProcGroup { name: groups[k].name.clone(), members: ms };
                    groups.set(k, g);
                    proof {
                        let gs = groups@;
                        assert forall|a: int, b: int| 0 <= a < b < gs.len() implies lex_lt(
                            #[trigger] gs[a].name@,
                            #[trigger] gs[b].name@,
                        ) by {
                            assert(gs[a].name@ == old_groups[a].name@);
                            assert(gs[b].name@ == old_groups[b].name@);
                        }
                        assert forall|g: int| 0 <= g < gs.len() implies (#[trigger] gs[g]).members@.len() > 0 by {
                            if g != k {
                                assert(gs[g] == old_groups[g]);
                            }
                        }
                        assert forall|g: int, j: int|
                            0 <= g < gs.len() && 0 <= j < gs[g].members@.len() implies member_ok(
                            rows@,
                            filter@,
                            gs[g].name@,
                            #[trigger] gs[g].members@[j],
                        ) && gs[g].members@[j] < i + 1 by {
                            if g != k {
                                assert(gs[g] == old_groups[g]);
                            } else if j < old_groups[k as int].members@.len() {
                                assert(gs[g].members@[j] == old_groups[g].members@[j]);
                            }
                        }
                        assert forall|g: int, j: int, l: int|
                            0 <= g < gs.len() && 0 <= j < l < gs[g].members@.len() implies #[trigger] gs[g].members@[j]
                            < #[trigger] gs[g].members@[l] by {
                            if g != k {
                                assert(gs[g] == old_groups[g]);
                            } else {
                                assert(gs[g].members@[j] == old_groups[g].members@[j]);
                                if l < old_groups[k as int].members@.len() {
                                    assert(gs[g].members@[l] == old_groups[g].members@[l]);
                                }
                            }
                        }
                        assert forall|x: int| 0 <= x < i + 1 && row_matches(filter@, rows@[x].name@, rows@[x].pid) implies #[trigger] in_groups(
                            gs,
                            x,
                        ) by {
                            if x < i {
                                assert(in_groups(old_groups, x));
                                let (g, j) = choose|g: int, j: int|
                                    0 <= g < old_groups.len() && 0 <= j < old_groups[g].members@.len()
                                        && old_groups[g].members@[j] == x;
                                if g != k {
                                    assert(gs[g] == old_groups[g]);
                                } else {
                                    assert(gs[g].members@[j] == old_groups[g].members@[j]);
                                }
                            } else {
                                let n = old_groups[k as int].members@.len() as int;
                                assert(gs[k as int].members@[n] == x);
                            }
                        }
                    }
                },
                None => {
                    let p = insert_position(&groups, &name);
                    let mut ms: Vec<usize> = Vec::new();
                    ms.push(i);
                    let g = ProcGroup { name: rows[i].name.clone(), members: ms };
                    groups.insert(p, g);
                    proof {
                        let gs = groups@;
                        assert(gs =~= old_groups.subrange(0, p as int).push(g).add(
                            old_groups.subrange(p as int, old_groups.len() as int),
                        ));
                        assert forall|a: int, b: int| 0 <= a < b < gs.len() implies lex_lt(
                            #[trigger] gs[a].name@,
                            #[trigger] gs[b].name@,
                        ) by {
                            if a < p && b < p {
                                assert(gs[a] == old_groups[a] && gs[b] == old_groups[b]);
                            } else if a < p && b == p {
                                assert(gs[a] == old_groups[a]);
                            } else if a < p {
                                assert(gs[a] == old_groups[a] && gs[b] == old_groups[b - 1]);
                            } else if a == p {
                                assert(gs[b] == old_groups[b - 1]);
                            } else {
                                assert(gs[a] == old_groups[a - 1] && gs[b] == old_groups[b - 1]);
                            }
                        }
                        assert forall|g: int| 0 <= g < gs.len() implies (#[trigger] gs[g]).members@.len() > 0 by {
                            if g < p {
                                assert(gs[g] == old_groups[g]);
                            } else if g > p {
                                assert(gs[g] == old_groups[g - 1]);
                            }
                        }
                        assert forall|g: int, j: int|
                            0 <= g < gs.len() && 0 <= j < gs[g].members@.len() implies member_ok(
                            rows@,
                            filter@,
                            gs[g].name@,
                            #[trigger] gs[g].members@[j],
                        ) && gs[g].members@[j] < i + 1 by {
                            if g < p {
                                assert(gs[g] == old_groups[g]);
                            } else if g > p {
                                assert(gs[g] == old_groups[g - 1]);
                            }
                        }
                        assert forall|g: int, j: int, l: int|
                            0 <= g < gs.len() && 0 <= j < l < gs[g].members@.len() implies #[trigger] gs[g].members@[j]
                            < #[trigger] gs[g].members@[l] by {
                            if g < p {
                                assert(gs[g] == old_groups[g]);
                            } else if g > p {
                                assert(gs[g] == old_groups[g - 1]);
                            }
                        }
                        assert forall|x: int| 0 <= x < i + 1 && row_matches(filter@, rows@[x].name@, rows@[x].pid) implies #[trigger] in_groups(
                            gs,
                            x,
                        ) by {
                            if x < i {
                                assert(in_groups(old_groups, x));
                                let (g, j) = choose|g: int, j: int|
                                    0 <= g < old_groups.len() && 0 <= j < old_groups[g].members@.len()
                                        && old_groups[g].members@[j] == x;
                                if g < p {
                                    assert(gs[g] == old_groups[g]);
                                } else {
                                    assert(gs[g + 1] == old_groups[g]);
                                }
                            } else {
                                assert(gs[p as int].members@[0] == x);
                            }
                        }
                    }
                },
            }
        } else {
            proof {
                assert forall|x: int| 0 <= x < i + 1 && row_matches(filter@, rows@[x].name@, rows@[x].pid) implies #[trigger] in_groups(
                    groups@,
                    x,
                ) by {
                    assert(x < i);
                }
            }
        }
        i += 1;
    }
    groups
}


// ---------------------------------------------------------------------------
// Ordering
// ---------------------------------------------------------------------------

/// `order` arranges `items` by `directed_le`, keeping the input order of
/// items that compare equal (a stable sort).
pub open spec fn ordered_stably(items: Seq<(Seq<char>, int)>, desc: bool, order: Seq<usize>) -> bool {
    forall|a: int, b: int|
        0 <= a < b < order.len() ==> directed_le(desc, #[trigger] items[order[a] as int], #[trigger] items[order[b] as int])
            && (directed_le(desc, items[order[b] as int], items[order[a] as int]) ==> order[a] < order[b])
}

/// What a process is compared by when the table is sorted by `key`: a text
/// (its lowercased name, its user or its status) or a number.
pub open spec fn child_item(row: ProcRow, key: SortKey) -> (Seq<char>, int) {
    match key {
        SortKey::Name => (lowercase(row.name@), 0),
        SortKey::Pid => (seq![], row.pid as int),
        SortKey::User => (row.user@, 0),
        SortKey::Cpu => (seq![], row.cpu_rank as int),
        SortKey::Mem => (seq![], row.mem_bytes as int),
        SortKey::Disk => (seq![], row.disk_rank as int),
        SortKey::Status => (row.status@, 0),
    }
}

/// The comparison values of the processes `members`.
pub open spec fn child_items(rows: Seq<ProcRow>, members: Seq<usize>, key: SortKey) -> Seq<(Seq<char>, int)> {
    members.map_values(|m: usize| child_item(rows[m as int], key))
}

fn sort_item_of(text: Vec<char>, num: u128, desc: bool) -> (r: SortItem)
    ensures
        r.text@ == text@,
        r.num == num,
        r.desc == desc,
{
    SortItem { text, num, desc }
}

fn child_sort_item(row: &ProcRow, key: SortKey, desc: bool) -> (r: SortItem)
    ensures
        (r.text@, r.num as int) == child_item(*row, key),
        r.desc == desc,
{
    match key {
        SortKey::Name => sort_item_of(to_lowercase(&chars_of(row.name.as_str())), 0, desc),
        SortKey::Pid => sort_item_of(Vec::new(), row.pid as u128, desc),
        SortKey::User => sort_item_of(chars_of(row.user.as_str()), 0, desc),
        SortKey::Cpu => sort_item_of(Vec::new(), row.cpu_rank as u128, desc),
        SortKey::Mem => sort_item_of(Vec::new(), row.mem_bytes as u128, desc),
        SortKey::Disk => sort_item_of(Vec::new(), row.disk_rank as u128, desc),
        SortKey::Status => sort_item_of(chars_of(row.status.as_str()), 0, desc),
    }
}

/// `items` in the order given by `stable_order` of `keys`, where each key
/// compares as the item with the same position.
proof fn lemma_sorted_items(keys: Seq<SortItem>, items: Seq<(Seq<char>, int)>, desc: bool, order: Seq<usize>)
    requires
        keys.len() == items.len(),
        forall|q: int| 0 <= q < keys.len() ==> (#[trigger] keys[q]).desc == desc && (keys[q].text@, keys[q].num as int) == items[q],
        is_permutation(order, keys.len() as nat),
        sorted_stably(keys, order),
    ensures
        ordered_stably(items, desc, order),
{
    assert forall|a: int, b: int| 0 <= a < b < order.len() implies directed_le(
        desc,
        #[trigger] items[order[a] as int],
        #[trigger] items[order[b] as int],
    ) && (directed_le(desc, items[order[b] as int], items[order[a] as int]) ==> order[a] < order[b]) by {
        let ka = keys[order[a] as int];
        let kb = keys[order[b] as int];
        assert(ka.key_le(kb));
    }
}

/// The processes of a group as the table lists them: sorted by `key`,
/// descending when `desc`, equal ones in their input order.
pub fn sort_children(rows: &Vec<ProcRow>, members: &Vec<usize>, key: SortKey, desc: bool) -> (r: Vec<usize>)
    requires
        forall|j: int| 0 <= j < members@.len() ==> #[trigger] members@[j] < rows@.len(),
    ensures
        exists|order: Seq<usize>|
            is_permutation(order, members@.len() as nat) && ordered_stably(child_items(rows@, members@, key), desc, order)
                && r@ == permuted(members@, order),
{
    let ghost items = child_items(rows@, members@, key);
    let mut keys: Vec<SortItem> = Vec::new();
    let mut j: usize = 0;
    while j < members.len()
        invariant
            j <= members@.len(),
            keys@.len() == j,
            items == child_items(rows@, members@, key),
            forall|q: int| 0 <= q < members@.len() ==> #[trigger] members@[q] < rows@.len(),
            forall|q: int| 0 <= q < j ==> (#[trigger] keys@[q]).desc == desc && (keys@[q].text@, keys@[q].num as int) == items[q],
        decreases members@.len() - j,
    {
        keys.push(child_sort_item(&rows[members[j]], key, desc));
        j += 1;
    }
    let order = stable_order(&keys);
    proof {
        lemma_sorted_items(keys@, items, desc, order@);
    }
    let mut r: Vec<usize> = Vec::new();
    let mut q: usize = 0;
    while q < order.len()
        invariant
            q <= order@.len(),
            is_permutation(order@, members@.len() as nat),
            r@.len() == q,
            forall|x: int| 0 <= x < q ==> r@[x] == members@[order@[x] as int],
        decreases order@.len() - q,
    {
        r.push(members[order[q]]);
        q += 1;
    }
    assert(r@ =~= permuted(members@, order@));
    r
}

/// The total memory of the processes `ms`.
pub open spec fn mem_total(rows: Seq<ProcRow>, ms: Seq<usize>) -> int
    decreases ms.len(),
{
    if ms.len() == 0 {
        0
    } else {
        mem_total(rows, ms.drop_last()) + rows[ms.last() as int].mem_bytes
    }
}

/// The lowest PID among the processes `ms` (not empty).
pub open spec fn min_pid(rows: Seq<ProcRow>, ms: Seq<usize>) -> int
    decreases ms.len(),
{
    if ms.len() <= 1 {
        rows[ms[0] as int].pid as int
    } else {
        let m = min_pid(rows, ms.drop_last());
        let p = rows[ms.last() as int].pid as int;
        if p < m {
            p
        } else {
            m
        }
    }
}

proof fn lemma_min_pid(rows: Seq<ProcRow>, ms: Seq<usize>)
    requires
        ms.len() > 0,
    ensures
        forall|j: int| 0 <= j < ms.len() ==> min_pid(rows, ms) <= #[trigger] rows[ms[j] as int].pid,
        exists|j: int| 0 <= j < ms.len() && min_pid(rows, ms) == #[trigger] rows[ms[j] as int].pid,
    decreases ms.len(),
{
    if ms.len() == 1 {
        assert(min_pid(rows, ms) == rows[ms[0] as int].pid);
    } else {
        let q = ms.drop_last();
        lemma_min_pid(rows, q);
        assert forall|j: int| 0 <= j < ms.len() implies min_pid(rows, ms) <= #[trigger] rows[ms[j] as int].pid by {
            if j < q.len() {
                assert(ms[j] == q[j]);
            }
        }
        let j0 = choose|j: int| 0 <= j < q.len() && min_pid(rows, q) == #[trigger] rows[q[j] as int].pid;
        if min_pid(rows, ms) == min_pid(rows, q) {
            assert(ms[j0] == q[j0]);
            assert(min_pid(rows, ms) == rows[ms[j0] as int].pid);
        } else {
            assert(min_pid(rows, ms) == rows[ms[ms.len() - 1] as int].pid);
        }
    }
}

/// Sorted by PID, a group is ranked by its lowest PID: the key is one more
/// than a PID that some member has and no member undercuts, so groups whose
/// lowest PIDs differ are ordered by them.
pub proof fn law_group_pid_is_lowest(rows: Seq<ProcRow>, g: ProcGroup, cpu_rank: u64, disk_rank: u64)
    requires
        g.members@.len() > 0,
    ensures
        ({
            let key = group_item(rows, g, SortKey::Pid, cpu_rank, disk_rank);
            &&& key.0 == Seq::<char>::empty()
            &&& forall|j: int| 0 <= j < g.members@.len() ==> key.1 - 1 <= #[trigger] rows[g.members@[j] as int].pid
            &&& exists|j: int| 0 <= j < g.members@.len() && key.1 - 1 == #[trigger] rows[g.members@[j] as int].pid
        }),
{
    lemma_min_pid(rows, g.members@);
}

/// An optional text compared as `Option<&str>` is: nothing comes first.
pub open spec fn opt_text_item(t: Option<Seq<char>>) -> (Seq<char>, int) {
    match t {
        None => (seq![], 0),
        Some(x) => (x, 1),
    }
}

/// What a group is compared by when the table is sorted by `key`: its
/// lowercased name, its lowest PID, the user or status of its first process
/// (an empty group, having none, comes first), its total memory, or the CPU
/// and disk ranks of its totals.
pub open spec fn group_item(rows: Seq<ProcRow>, g: ProcGroup, key: SortKey, cpu_rank: u64, disk_rank: u64) -> (Seq<char>, int) {
    let ms = g.members@;
    match key {
        SortKey::Name => (lowercase(g.name@), 0),
        SortKey::Pid => (seq![], if ms.len() == 0 {
            0
        } else {
            min_pid(rows, ms) + 1
        }),
        SortKey::User => opt_text_item(if ms.len() == 0 {
            None
        } else {
            Some(rows[ms[0] as int].user@)
        }),
        SortKey::Cpu => (seq![], cpu_rank as int),
        SortKey::Mem => (seq![], mem_total(rows, ms)),
        SortKey::Disk => (seq![], disk_rank as int),
        SortKey::Status => opt_text_item(if ms.len() == 0 {
            None
        } else {
            Some(rows[ms[0] as int].status@)
        }),
    }
}

/// The comparison values of the groups.
pub open spec fn group_items(
    rows: Seq<ProcRow>,
    gs: Seq<ProcGroup>,
    key: SortKey,
    cpu_ranks: Seq<u64>,
    disk_ranks: Seq<u64>,
) -> Seq<(Seq<char>, int)> {
    Seq::new(gs.len(), |g: int| group_item(rows, gs[g], key, cpu_ranks[g], disk_ranks[g]))
}

fn group_mem_total(rows: &Vec<ProcRow>, ms: &Vec<usize>) -> (r: u128)
    requires
        forall|j: int| 0 <= j < ms@.len() ==> #[trigger] ms@[j] < rows@.len(),
    ensures
        r == mem_total(rows@, ms@),
{
    let mut total: u128 = 0;
    let mut j: usize = 0;
    while j < ms.len()
        invariant
            j <= ms@.len(),
            forall|q: int| 0 <= q < ms@.len() ==> #[trigger] ms@[q] < rows@.len(),
            total == mem_total(rows@, ms@.take(j as int)),
            total <= j * 0xffff_ffff_ffff_ffffu128,
        decreases ms@.len() - j,
    {
        assert(ms@.take(j + 1).drop_last() =~= ms@.take(j as int));
        assert(j < 0x1_0000_0000_0000_0000u128);
        total = total + rows[ms[j]].mem_bytes as u128;
        j += 1;
    }
    assert(ms@.take(ms@.len() as int) =~= ms@);
    total
}

fn group_min_pid(rows: &Vec<ProcRow>, ms: &Vec<usize>) -> (r: u32)
    requires
        ms@.len() > 0,
        forall|j: int| 0 <= j < ms@.len() ==> #[trigger] ms@[j] < rows@.len(),
    ensures
        r == min_pid(rows@, ms@),
{
    let mut m = rows[ms[0]].pid;
    let mut j: usize = 1;
    assert(ms@.take(1) =~= seq![ms@[0]]);
    while j < ms.len()
        invariant
            1 <= j <= ms@.len(),
            forall|q: int| 0 <= q < ms@.len() ==> #[trigger] ms@[q] < rows@.len(),
            m == min_pid(rows@, ms@.take(j as int)),
        decreases ms@.len() - j,
    {
        assert(ms@.take(j + 1).drop_last() =~= ms@.take(j as int));
        let p = rows[ms[j]].pid;
        if p < m {
            m = p;
        }
        j += 1;
    }
    assert(ms@.take(ms@.len() as int) =~= ms@);
    m
}

fn group_sort_item(
    rows: &Vec<ProcRow>,
    g: &ProcGroup,
    key: SortKey,
    desc: bool,
    cpu_rank: u64,
    disk_rank: u64,
) -> (r: SortItem)
    requires
        forall|j: int| 0 <= j < g.members@.len() ==> #[trigger] g.members@[j] < rows@.len(),
    ensures
        (r.text@, r.num as int) == group_item(rows@, *g, key, cpu_rank, disk_rank),
        r.desc == desc,
{
    let empty = g.members.len() == 0;
    match key {
        SortKey::Name => sort_item_of(to_lowercase(&chars_of(g.name.as_str())), 0, desc),
        SortKey::Pid => if empty {
            sort_item_of(Vec::new(), 0, desc)
        } else {
            sort_item_of(Vec::new(), group_min_pid(rows, &g.members) as u128 + 1, desc)
        },
        SortKey::User => if empty {
            sort_item_of(Vec::new(), 0, desc)
        } else {
            sort_item_of(chars_of(rows[g.members[0]].user.as_str()), 1, desc)
        },
        SortKey::Cpu => sort_item_of(Vec::new(), cpu_rank as u128, desc),
        SortKey::Mem => sort_item_of(Vec::new(), group_mem_total(rows, &g.members), desc),
        SortKey::Disk => sort_item_of(Vec::new(), disk_rank as u128, desc),
        SortKey::Status => if empty {
            sort_item_of(Vec::new(), 0, desc)
        } else {
            sort_item_of(chars_of(rows[g.members[0]].status.as_str()), 1, desc)
        },
    }
}

/// The order the groups are listed in: sorted by `key`, descending when
/// `desc`, equal ones in their order in `groups`. `cpu_ranks[g]` and `disk_ranks[g]` rank
/// the CPU and disk totals of group `g`.
pub fn group_order(
    rows: &Vec<ProcRow>,
    groups: &Vec<ProcGroup>,
    key: SortKey,
    desc: bool,
    cpu_ranks: &Vec<u64>,
    disk_ranks: &Vec<u64>,
) -> (r: Vec<usize>)
    requires
        cpu_ranks@.len() == groups@.len(),
        disk_ranks@.len() == groups@.len(),
        forall|g: int, j: int|
            0 <= g < groups@.len() && 0 <= j < groups@[g].members@.len() ==> #[trigger] groups@[g].members@[j] < rows@.len(),
    ensures
        is_permutation(r@, groups@.len() as nat),
        ordered_stably(group_items(rows@, groups@, key, cpu_ranks@, disk_ranks@), desc, r@),
{
    let ghost items = group_items(rows@, groups@, key, cpu_ranks@, disk_ranks@);
    let mut keys: Vec<SortItem> = Vec::new();
    let mut g: usize = 0;
    while g < groups.len()
        invariant
            g <= groups@.len(),
            keys@.len() == g,
            cpu_ranks@.len() == groups@.len(),
            disk_ranks@.len() == groups@.len(),
            items == group_items(rows@, groups@, key, cpu_ranks@, disk_ranks@),
            forall|x: int, j: int|
                0 <= x < groups@.len() && 0 <= j < groups@[x].members@.len() ==> #[trigger] groups@[x].members@[j] < rows@.len(),
            forall|q: int| 0 <= q < g ==> (#[trigger] keys@[q]).desc == desc && (keys@[q].text@, keys@[q].num as int) == items[q],
        decreases groups@.len() - g,
    {
        let gr = &groups[g];
        assert forall|j: int| 0 <= j < gr.members@.len() implies #[trigger] gr.members@[j] < rows@.len() by {
            assert(groups@[g as int].members@[j] < rows@.len());
        }
        keys.push(group_sort_item(rows, gr, key, desc, cpu_ranks[g], disk_ranks[g]));
        g += 1;
    }
    let order = stable_order(&keys);
    proof {
        lemma_sorted_items(keys@, items, desc, order@);
    }
    order
}


// ---------------------------------------------------------------------------
// The rows shown
// ---------------------------------------------------------------------------

/// A row of the table: the header of a group of several processes (with
/// whether it is expanded), a process alone under its name, or a process
/// listed under its group's header.
#[derive(Clone, Copy, Debug, PartialEq, Eq, Structural)]
pub enum RowRef {
    GroupHeader { group: usize, expanded: bool },
    Single(usize),
    Child(usize),
}

/// The rows of the group at `index`: a single process is one row; a larger
/// group is its header, followed by its processes when expanded.
pub open spec fn group_rows(index: int, g: ProcGroup, expanded: bool) -> Seq<RowRef> {
    if g.members@.len() == 1 {
        seq![RowRef::Single(g.members@[0])]
    } else {
        seq![RowRef::GroupHeader { group: index as usize, expanded }] + if expanded {
            g.members@.map_values(|m: usize| RowRef::Child(m))
        } else {
            seq![]
        }
    }
}

/// The rows of the groups, in order. A group is expanded while a filter is
/// active or when its name is among `names`.
pub open spec fn shown_rows(gs: Seq<ProcGroup>, names: Set<Seq<char>>, filter_active: bool) -> Seq<RowRef>
    decreases gs.len(),
{
    if gs.len() == 0 {
        seq![]
    } else {
        shown_rows(gs.drop_last(), names, filter_active) + group_rows(
            gs.len() - 1,
            gs.last(),
            filter_active || names.contains(gs.last().name@),
        )
    }
}

impl State {
    /// The rows shown for `groups`, which are in display order with their
    /// processes sorted.
    pub fn visible_rows(&self, groups: &Vec<ProcGroup>) -> (r: Vec<RowRef>)
        ensures
            r@ == shown_rows(groups@, self.expanded_names(), trim(self.filter_text()).len() > 0),
    {
        let filter_active = trim_str(self.filter.as_str()).len() > 0;
        let ghost names = self.expanded_names();
        let mut r: Vec<RowRef> = Vec::new();
        let mut g: usize = 0;
        while g < groups.len()
            invariant
                g <= groups@.len(),
                names == self.expanded_names(),
                filter_active == (trim(self.filter_text()).len() > 0),
                r@ == shown_rows(groups@.take(g as int), names, filter_active),
            decreases groups@.len() - g,
        {
            let gr = &groups[g];
            let ghost before = r@;
            assert(groups@.take(g + 1).drop_last() =~= groups@.take(g as int));
            assert(groups@.take(g + 1).last() == *gr);
            if gr.members.len() == 1 {
                r.push(RowRef::Single(gr.members[0]));
                assert(r@ =~= before + group_rows(g as int, *gr, filter_active || names.contains(gr.name@)));
            } else {
                let expanded = filter_active || self.is_expanded(gr.name.as_str());
                r.push(RowRef::GroupHeader { group: g, expanded });
                if expanded {
                    let mut j: usize = 0;
                    while j < gr.members.len()
                        invariant
                            j <= gr.members@.len(),
                            r@ == before + seq![RowRef::GroupHeader { group: g, expanded }]
                                + gr.members@.take(j as int).map_values(|m: usize| RowRef::Child(m)),
                        decreases gr.members@.len() - j,
                    {
                        assert(gr.members@.take(j + 1).map_values(|m: usize| RowRef::Child(m))
                            =~= gr.members@.take(j as int).map_values(|m: usize| RowRef::Child(m)).push(
                            RowRef::Child(gr.members@[j as int]),
                        ));
                        r.push(RowRef::Child(gr.members[j]));
                        j += 1;
                    }
                    assert(gr.members@.take(gr.members@.len() as int) =~= gr.members@);
                }
                assert(r@ =~= before + group_rows(g as int, *gr, expanded));
            }
            g += 1;
        }
        assert(groups@.take(groups@.len() as int) =~= groups@);
        r
    }
}


/// The colour role of a process status.
pub open spec fn status_tone_of(s: Seq<char>) -> Tone {
    if s == "Run"@ || s == "Running"@ {
        Tone::Good
    } else if s == "Sleep"@ || s == "Sleeping"@ || s == "Idle"@ {
        Tone::Dim
    } else if s == "Stop"@ || s == "Stopped"@ {
        Tone::Warning
    } else if s == "Zombie"@ || s == "Dead"@ {
        Tone::Failure
    } else {
        Tone::Normal
    }
}

/// The colour role of a process status: running is good, sleeping and idle
/// are dim, stopped is a warning, zombie and dead are failures.
pub fn status_tone(s: &str) -> (r: Tone)
    ensures
        r == status_tone_of(s@),
{
    let c = chars_of(s);
    if chars_eq_str(&c, "Run") || chars_eq_str(&c, "Running") {
        Tone::Good
    } else if chars_eq_str(&c, "Sleep") || chars_eq_str(&c, "Sleeping") || chars_eq_str(&c, "Idle") {
        Tone::Dim
    } else if chars_eq_str(&c, "Stop") || chars_eq_str(&c, "Stopped") {
        Tone::Warning
    } else if chars_eq_str(&c, "Zombie") || chars_eq_str(&c, "Dead") {
        Tone::Failure
    } else {
        Tone::Normal
    }
}


impl Default for State {
    /// The default column (CPU), ascending, nothing selected, expanded or
    /// filtered.
    fn default() -> (r: Self)
        ensures
            r.sort_key() == SortKey::Cpu,
            !r.is_descending(),
            r.selection() is None,
            r.expanded_names() == Set::<Seq<char>>::empty(),
            r.filter_text() == Seq::<char>::empty(),
    {
        let r = State {
            sort: SortKey::Cpu,
            descending: false,
            selected_pid: None,
            expanded: Vec::new(),
            filter: string_of(&Vec::new()),
        };
        assert(r.expanded_names() =~= Set::<Seq<char>>::empty());
        r
    }
}

} // verus!
