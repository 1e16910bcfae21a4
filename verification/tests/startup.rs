use rproc::startup::{
    apply_descriptions, autostart_target, duration_terms_exec, parse_autostart, parse_blame,
    parse_descriptions, parse_protected_units, set_enabled, sort_entries, systemd_entries, systemd_entry,
    toggle_autostart, AutostartTarget, StartupEntry, StartupSource, ToggleAction,
};

fn entry(source: StartupSource, name: &str, boot: Option<u64>, critical: bool) -> StartupEntry {
    StartupEntry {
        source,
        path: format!("/etc/xdg/autostart/{name}.desktop"),
        name: name.to_string(),
        command: format!("{name}.service"),
        comment: String::new(),
        icon: String::new(),
        enabled: true,
        boot_time_ms: boot,
        critical,
    }
}

const APP: &str = "[Desktop Entry]\nType=Application\nName=Syncer\nExec=/usr/bin/syncer --bg\nComment=Keeps files\nIcon=syncer\n";

#[test]
fn parse_autostart_reads_the_main_group() {
    let e = parse_autostart(APP, "/home/u/.config/autostart/syncer.desktop", StartupSource::UserAutostart);
    assert_eq!(e.name, "Syncer");
    assert_eq!(e.command, "/usr/bin/syncer --bg");
    assert_eq!(e.comment, "Keeps files");
    assert_eq!(e.icon, "syncer");
    assert_eq!(e.path, "/home/u/.config/autostart/syncer.desktop");
    assert!(e.enabled);
    assert_eq!(e.boot_time_ms, None);
    assert!(!e.critical);
}

#[test]
fn parse_autostart_hidden_or_gnome_disabled_is_off() {
    let hidden = format!("{APP}Hidden=true\n");
    assert!(!parse_autostart(&hidden, "p", StartupSource::UserAutostart).enabled);
    let gnome = format!("{APP}X-GNOME-Autostart-enabled=false\n");
    assert!(!parse_autostart(&gnome, "p", StartupSource::UserAutostart).enabled);
    let gnome_on = format!("{APP}X-GNOME-Autostart-enabled=true\nHidden=false\n");
    assert!(parse_autostart(&gnome_on, "p", StartupSource::UserAutostart).enabled);
}

#[test]
fn parse_autostart_skips_comments_and_other_groups() {
    let text = "[Desktop Entry]\n#Name=Commented\nName=Real\n[Desktop Action x]\nName=Action\n";
    let e = parse_autostart(text, "p", StartupSource::SystemAutostart);
    assert_eq!(e.name, "Real");
    assert_eq!(e.source, StartupSource::SystemAutostart);
}

#[test]
fn toggle_autostart_off_then_read_back() {
    let off = toggle_autostart(APP, false);
    let e = parse_autostart(&off, "p", StartupSource::UserAutostart);
    assert!(!e.enabled);
    assert_eq!(e.name, "Syncer");
    assert_eq!(e.command, "/usr/bin/syncer --bg");
    assert_eq!(e.comment, "Keeps files");
    assert_eq!(e.icon, "syncer");
    let on = toggle_autostart(&off, true);
    assert!(parse_autostart(&on, "p", StartupSource::UserAutostart).enabled);
}

#[test]
fn toggle_autostart_rewrites_lines_exactly() {
    let text = "[Desktop Entry]\nName=A\nHidden=true\nX-GNOME-Autostart-enabled=false\n[Other]\nHidden=keep\n";
    assert_eq!(
        toggle_autostart(text, true),
        "[Desktop Entry]\nName=A\nHidden=false\nX-GNOME-Autostart-enabled=true\n[Other]\nHidden=keep"
    );
}

#[test]
fn toggle_autostart_adds_hidden_before_next_group_and_at_end() {
    let text = "[Desktop Entry]\nName=A\n[Desktop Action x]\nName=B";
    assert_eq!(toggle_autostart(text, false), "[Desktop Entry]\nName=A\nHidden=true\n[Desktop Action x]\nName=B");
    assert_eq!(toggle_autostart("[Desktop Entry]\nName=A", false), "[Desktop Entry]\nName=A\nHidden=true");
}

#[test]
fn toggle_autostart_without_main_group_changes_nothing() {
    let text = "Name=A\r\nExec=a";
    assert_eq!(toggle_autostart(text, false), "Name=A\nExec=a");
}

#[test]
fn set_enabled_refuses_protected_units() {
    let e = entry(StartupSource::SystemdSystem, "dbus", Some(10), true);
    assert_eq!(
        set_enabled(&e, false).err(),
        Some("This unit is managed by systemd dependencies (static/generated) and cannot be disabled directly.".to_string())
    );
}

#[test]
fn set_enabled_edits_autostart_files() {
    let e = entry(StartupSource::UserAutostart, "syncer", None, false);
    assert!(matches!(set_enabled(&e, false), Ok(ToggleAction::EditAutostartFile)));
}

#[test]
fn set_enabled_runs_systemctl_for_units() {
    let e = entry(StartupSource::SystemdUser, "pipewire", Some(5), false);
    match set_enabled(&e, false) {
        Ok(ToggleAction::RunSystemctl(args)) => assert_eq!(args, vec!["--user", "disable", "pipewire.service"]),
        _ => panic!("expected a systemctl run"),
    }
    let s = entry(StartupSource::SystemdSystem, "cups", Some(5), false);
    match set_enabled(&s, true) {
        Ok(ToggleAction::RunSystemctl(args)) => assert_eq!(args, vec!["enable", "cups.service"]),
        _ => panic!("expected a systemctl run"),
    }
}

#[test]
fn autostart_target_in_place_or_user_copy() {
    let user = entry(StartupSource::UserAutostart, "a", None, false);
    assert!(matches!(autostart_target(&user, None), Ok(AutostartTarget::InPlace(p)) if p == "/etc/xdg/autostart/a.desktop"));
    let sys = entry(StartupSource::SystemAutostart, "b", None, false);
    match autostart_target(&sys, Some("/home/u")) {
        Ok(AutostartTarget::UserCopy { dir, file }) => {
            assert_eq!(dir, "/home/u/.config/autostart");
            assert_eq!(file, Ok("/home/u/.config/autostart/b.desktop".to_string()));
        },
        _ => panic!("expected a user copy"),
    }
    assert_eq!(autostart_target(&sys, None).err(), Some("no HOME".to_string()));
    let mut root = entry(StartupSource::SystemAutostart, "c", None, false);
    root.path = "/".to_string();
    match autostart_target(&root, Some("/home/u")) {
        Ok(AutostartTarget::UserCopy { file, .. }) => assert_eq!(file, Err("no name".to_string())),
        _ => panic!("expected a user copy"),
    }
}

fn terms(s: &str) -> Option<Vec<(String, u64)>> {
    duration_terms_exec(s).map(|v| v.into_iter().map(|t| (t.number, t.factor_us)).collect())
}

#[test]
fn duration_terms_read_each_unit() {
    assert_eq!(terms("877us"), Some(vec![("877".to_string(), 1)]));
    assert_eq!(terms("5µs"), Some(vec![("5".to_string(), 1)]));
    assert_eq!(terms("5μs"), Some(vec![("5".to_string(), 1)]));
    assert_eq!(terms("12ms"), Some(vec![("12".to_string(), 1000)]));
    assert_eq!(terms("1.234s"), Some(vec![("1.234".to_string(), 1000000)]));
    assert_eq!(
        terms("1min 2.345s"),
        Some(vec![("1".to_string(), 60000000), ("2.345".to_string(), 1000000)])
    );
    assert_eq!(
        terms("2h 3min 4s"),
        Some(vec![
            ("2".to_string(), 3600000000),
            ("3".to_string(), 60000000),
            ("4".to_string(), 1000000)
        ])
    );
    assert_eq!(terms("1d"), Some(vec![("1".to_string(), 86400000000)]));
}

#[test]
fn duration_terms_refuse_bad_text() {
    assert_eq!(terms(""), None);
    assert_eq!(terms("   "), None);
    assert_eq!(terms("abc"), None);
    assert_eq!(terms("5x"), None);
    assert_eq!(terms("1.2.3s"), None);
    assert_eq!(terms("5s 3x"), Some(vec![("5".to_string(), 1000000)]));
}

#[test]
fn parse_blame_keeps_every_service_line() {
    let text = "  1.234s foo.service\n 800ms bar.target\n1min 2.345s slow.service\n877us quick.service\ngarbage\n 12ms nodur\n?? odd.service\n";
    let lines = parse_blame(text);
    let units: Vec<&str> = lines.iter().map(|l| l.unit.as_str()).collect();
    assert_eq!(units, vec!["foo.service", "slow.service", "quick.service", "odd.service"]);
    assert_eq!(lines[0].terms.len(), 1);
    assert_eq!(lines[1].terms.len(), 2);
    assert_eq!(lines[2].terms[0].number, "877");
    assert_eq!(lines[2].terms[0].factor_us, 1);
    assert!(lines[3].terms.is_empty());
}

#[test]
fn systemd_entries_one_per_blame_line() {
    let blame = parse_blame("1.5s a.service\n877us b.service\n");
    let protected = vec!["b.service".to_string()];
    let (entries, units) = systemd_entries(&blame, &vec![1500, 0], true, &protected);
    assert_eq!(units, vec!["a.service", "b.service"]);
    assert_eq!(entries.len(), 2);
    assert_eq!(entries[0].name, "a");
    assert_eq!(entries[0].boot_time_ms, Some(1500));
    assert_eq!(entries[0].source, StartupSource::SystemdUser);
    assert!(!entries[0].critical);
    assert_eq!(entries[1].boot_time_ms, Some(0));
    assert!(entries[1].critical);
}

#[test]
fn systemd_entry_fills_the_unit() {
    let protected = vec!["dbus.service".to_string()];
    let e = systemd_entry("dbus.service", 42, false, &protected);
    assert_eq!(e.name, "dbus");
    assert_eq!(e.command, "dbus.service");
    assert_eq!(e.path, "dbus.service");
    assert_eq!(e.source, StartupSource::SystemdSystem);
    assert_eq!(e.boot_time_ms, Some(42));
    assert!(e.critical && e.enabled);
    let u = systemd_entry("x.service.service", 1, true, &protected);
    assert_eq!(u.name, "x");
    assert_eq!(u.source, StartupSource::SystemdUser);
    assert!(!u.critical);
}

#[test]
fn parse_protected_units_by_state() {
    let text = "a.service static -\nb.service enabled enabled\nc.service generated -\nd.service alias\na.service static\nlonely\n";
    assert_eq!(parse_protected_units(text), vec!["a.service", "c.service", "d.service"]);
}

#[test]
fn parse_descriptions_pairs_ids_and_descriptions() {
    let text = "Id=a.service\nDescription=Alpha\n\nDescription=Orphan\n\nId=b.service\nDescription=Beta";
    let pairs = parse_descriptions(text);
    assert_eq!(
        pairs,
        vec![("a.service".to_string(), "Alpha".to_string()), ("b.service".to_string(), "Beta".to_string())]
    );
}

#[test]
fn apply_descriptions_sets_comments() {
    let mut es = vec![
        entry(StartupSource::SystemdSystem, "a", Some(1), false),
        entry(StartupSource::SystemdSystem, "z", Some(1), false),
    ];
    let pairs = vec![
        ("a.service".to_string(), "Alpha".to_string()),
        ("a.service".to_string(), "Alpha 2".to_string()),
    ];
    apply_descriptions(&mut es, &pairs);
    assert_eq!(es[0].comment, "Alpha 2");
    assert_eq!(es[1].comment, "");
}

#[test]
fn sort_entries_protected_then_slowest_then_by_name() {
    let es = vec![
        entry(StartupSource::UserAutostart, "beta", None, false),
        entry(StartupSource::SystemdSystem, "fast", Some(10), false),
        entry(StartupSource::UserAutostart, "Alpha", None, false),
        entry(StartupSource::SystemdSystem, "slow", Some(900), false),
        entry(StartupSource::SystemdSystem, "core", Some(1), true),
    ];
    let names: Vec<String> = sort_entries(&es).into_iter().map(|e| e.name).collect();
    assert_eq!(names, vec!["core", "slow", "fast", "Alpha", "beta"]);
}

#[test]
fn toggle_keeps_keys_written_with_spaces() {
    let text = "[Desktop Entry]\nName=A\nX-GNOME-Autostart-enabled = false\n";
    let on = toggle_autostart(text, true);
    assert_eq!(on, "[Desktop Entry]\nName=A\nX-GNOME-Autostart-enabled = false\nHidden=false");
    assert!(!parse_autostart(&on, "p", StartupSource::UserAutostart).enabled);
}

#[test]
fn toggle_off_without_entry_group_stays_on() {
    let off = toggle_autostart("Name=A\n", false);
    assert_eq!(off, "Name=A");
    assert!(parse_autostart(&off, "p", StartupSource::UserAutostart).enabled);
}

#[test]
fn parse_descriptions_takes_the_last_fields_of_each_block() {
    let text = "Id=a.service\nId=b.service\nDescription=x\nDescription=y\n\nId=\nDescription=z\n\nDescription=w\nId=c.service";
    assert_eq!(
        parse_descriptions(text),
        vec![("b.service".to_string(), "y".to_string()), ("c.service".to_string(), "w".to_string())]
    );
}
