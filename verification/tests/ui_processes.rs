use rproc::ui::processes::{
    group_order, group_processes, process_matches, sort_children, status_tone, ProcGroup, ProcRow,
    RowRef, SortKey, State,
};
use rproc::ui::Tone;

fn row(pid: u32, name: &str, user: &str, mem: u64, cpu: u64) -> ProcRow {
    ProcRow {
        pid,
        name: name.to_string(),
        user: user.to_string(),
        status: "Sleeping".to_string(),
        mem_bytes: mem,
        cpu_rank: cpu,
        disk_rank: 0,
    }
}

fn rows() -> Vec<ProcRow> {
    vec![
        row(30, "firefox", "ann", 500, 7),
        row(12, "bash", "root", 10, 1),
        row(31, "firefox", "ann", 300, 9),
        row(7, "Xorg", "root", 200, 3),
        row(29, "firefox", "ann", 100, 2),
    ]
}

fn names(groups: &Vec<ProcGroup>) -> Vec<String> {
    groups.iter().map(|g| g.name.clone()).collect()
}

#[test]
fn new_state_sorts_by_cpu_descending() {
    let s = State::new();
    assert_eq!(s.sort(), SortKey::Cpu);
    assert!(s.descending());
    assert_eq!(s.selected_pid(), None);
    assert_eq!(s.filter(), "");
    let d = State::default();
    assert_eq!(d.sort(), SortKey::Cpu);
    assert!(!d.descending());
}

#[test]
fn clicking_headers() {
    let mut s = State::new();
    s.click_header(SortKey::Cpu);
    assert_eq!((s.sort(), s.descending()), (SortKey::Cpu, false));
    s.click_header(SortKey::Cpu);
    assert_eq!((s.sort(), s.descending()), (SortKey::Cpu, true));
    s.click_header(SortKey::Name);
    assert_eq!((s.sort(), s.descending()), (SortKey::Name, false));
    s.click_header(SortKey::Mem);
    assert_eq!((s.sort(), s.descending()), (SortKey::Mem, true));
    s.click_header(SortKey::Status);
    assert_eq!((s.sort(), s.descending()), (SortKey::Status, false));
    assert_eq!(s.header_arrows(SortKey::Status), (true, false));
    assert_eq!(s.header_arrows(SortKey::Pid), (false, false));
}

#[test]
fn toggling_a_group_twice_restores_it() {
    let mut s = State::new();
    assert!(!s.is_expanded("firefox"));
    s.toggle_group("firefox");
    assert!(s.is_expanded("firefox"));
    s.toggle_group("bash");
    s.toggle_group("firefox");
    assert!(!s.is_expanded("firefox"));
    assert!(s.is_expanded("bash"));
}

#[test]
fn selection() {
    let mut s = State::new();
    s.select(42);
    assert_eq!(s.selected_pid(), Some(42));
    s.clear_selection();
    assert_eq!(s.selected_pid(), None);
}

#[test]
fn filter_is_trimmed_and_lowercased() {
    let mut s = State::new();
    s.set_filter("  FireFox ");
    assert_eq!(s.filter(), "  FireFox ");
    assert_eq!(s.normalized_filter(), "firefox");
}

#[test]
fn process_matching_by_name_or_pid() {
    assert!(process_matches("", "anything", 1));
    assert!(process_matches("fox", "FireFox", 1));
    assert!(process_matches("23", "x", 1234));
    assert!(!process_matches("fox", "bash", 77));
}

#[test]
fn grouping_by_name_in_name_order() {
    let rs = rows();
    let groups = group_processes(&rs, "");
    assert_eq!(names(&groups), vec!["Xorg", "bash", "firefox"]);
    assert_eq!(groups[2].members, vec![0, 2, 4]);
    let filtered = group_processes(&rs, "fire");
    assert_eq!(names(&filtered), vec!["firefox"]);
    let by_pid = group_processes(&rs, "12");
    assert_eq!(names(&by_pid), vec!["bash"]);
    assert!(group_processes(&rs, "nothing").is_empty());
}

#[test]
fn children_sort_stably_in_either_direction() {
    let rs = rows();
    let members = vec![0, 2, 4];
    assert_eq!(sort_children(&rs, &members, SortKey::Pid, false), vec![4, 0, 2]);
    assert_eq!(sort_children(&rs, &members, SortKey::Mem, true), vec![0, 2, 4]);
    assert_eq!(sort_children(&rs, &members, SortKey::Cpu, true), vec![2, 0, 4]);
    assert_eq!(sort_children(&rs, &members, SortKey::User, true), vec![0, 2, 4]);
    assert_eq!(sort_children(&rs, &members, SortKey::Name, false), vec![0, 2, 4]);
}

#[test]
fn groups_sort_by_totals_and_first_members() {
    let rs = rows();
    let groups = group_processes(&rs, "");
    let ranks = vec![0, 0, 0];
    assert_eq!(group_order(&rs, &groups, SortKey::Mem, true, &ranks, &ranks), vec![2, 0, 1]);
    assert_eq!(group_order(&rs, &groups, SortKey::Pid, false, &ranks, &ranks), vec![0, 1, 2]);
    assert_eq!(group_order(&rs, &groups, SortKey::Name, false, &ranks, &ranks), vec![1, 2, 0]);
    assert_eq!(group_order(&rs, &groups, SortKey::User, false, &ranks, &ranks), vec![2, 0, 1]);
    let cpu = vec![5, 1, 9];
    assert_eq!(group_order(&rs, &groups, SortKey::Cpu, true, &cpu, &ranks), vec![2, 0, 1]);
    assert_eq!(group_order(&rs, &groups, SortKey::Disk, true, &ranks, &ranks), vec![0, 1, 2]);
}

#[test]
fn visible_rows_expand_on_demand_or_when_filtering() {
    let rs = rows();
    let groups = group_processes(&rs, "");
    let mut s = State::new();
    assert_eq!(
        s.visible_rows(&groups),
        vec![RowRef::Single(3), RowRef::Single(1), RowRef::GroupHeader { group: 2, expanded: false }]
    );
    s.toggle_group("firefox");
    assert_eq!(
        s.visible_rows(&groups),
        vec![
            RowRef::Single(3),
            RowRef::Single(1),
            RowRef::GroupHeader { group: 2, expanded: true },
            RowRef::Child(0),
            RowRef::Child(2),
            RowRef::Child(4),
        ]
    );
    let mut f = State::new();
    f.set_filter("fire");
    let only = group_processes(&rs, &f.normalized_filter());
    assert_eq!(
        f.visible_rows(&only),
        vec![
            RowRef::GroupHeader { group: 0, expanded: true },
            RowRef::Child(0),
            RowRef::Child(2),
            RowRef::Child(4),
        ]
    );
}

#[test]
fn status_tones() {
    assert_eq!(status_tone("Run"), Tone::Good);
    assert_eq!(status_tone("Running"), Tone::Good);
    assert_eq!(status_tone("Sleeping"), Tone::Dim);
    assert_eq!(status_tone("Idle"), Tone::Dim);
    assert_eq!(status_tone("Stopped"), Tone::Warning);
    assert_eq!(status_tone("Zombie"), Tone::Failure);
    assert_eq!(status_tone("Dead"), Tone::Failure);
    assert_eq!(status_tone("Tracing"), Tone::Normal);
}
