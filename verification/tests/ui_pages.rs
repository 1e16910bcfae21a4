use std::time::Instant;

use rproc::services::ServiceScope;
use rproc::startup::{StartupEntry, StartupSource};
use rproc::ui::services::{action_message, active_tone, refresh, scope_str};
use rproc::ui::startup::{
    display_name, format_boot_time, scope_badge, split_time_filter, toggle_label, BootTime, Op,
};
use rproc::ui::Tone;

const SYSTEM: &str = "cups.service loaded active running CUPS Scheduler\nssh.service loaded inactive dead Secure Shell\n";
const USER: &str = "pipewire.service loaded active running PipeWire Multimedia\n";

#[test]
fn services_page_lists_and_filters() {
    let now = Instant::now();
    let mut page = rproc::ui::services::State::new(SYSTEM, USER, now);
    assert_eq!(page.entries.len(), 3);
    assert_eq!(page.visible_rows(), vec![0, 1, 2]);
    page.filter = "SHELL".to_string();
    assert_eq!(page.visible_rows(), vec![2]);
    page.filter = "nothing".to_string();
    assert_eq!(page.visible_rows(), vec![] as Vec<usize>);
    page.filter = "p".to_string();
    page.show_only_running = true;
    assert_eq!(page.visible_rows(), vec![0, 1]);
    page.filter = String::new();
    assert_eq!(page.visible_rows(), vec![0, 1]);
}

#[test]
fn services_refresh_keeps_the_view() {
    let mut page = rproc::ui::services::State::new(SYSTEM, "", Instant::now());
    page.filter = "cups".to_string();
    page.show_only_running = true;
    let later = Instant::now();
    refresh(&mut page, SYSTEM, USER, later);
    assert_eq!(page.entries.len(), 3);
    assert_eq!(page.last_loaded, later);
    assert_eq!(page.filter, "cups");
    assert!(page.show_only_running);
}

#[test]
fn services_action_messages() {
    assert_eq!(action_message("start", "cups.service", &Ok(())), (true, "start cups.service ok".to_string()));
    assert_eq!(
        action_message("stop", "ssh.service", &Err("Access denied".to_string())),
        (false, "stop ssh.service: Access denied".to_string())
    );
    let mut page = rproc::ui::services::State::new("", "", Instant::now());
    page.record_action("restart", "x.service", &Ok(()));
    assert_eq!(page.last_message, Some((true, "restart x.service ok".to_string())));
}

#[test]
fn services_scope_and_tones() {
    assert_eq!(scope_str(ServiceScope::System), "system");
    assert_eq!(scope_str(ServiceScope::User), "user");
    assert_eq!(active_tone("active"), Tone::Good);
    assert_eq!(active_tone("activating"), Tone::Warning);
    assert_eq!(active_tone("reloading"), Tone::Warning);
    assert_eq!(active_tone("failed"), Tone::Failure);
    assert_eq!(active_tone("inactive"), Tone::Dim);
}

fn entry(name: &str, command: &str, boot: Option<u64>, critical: bool) -> StartupEntry {
    StartupEntry {
        source: StartupSource::SystemdSystem,
        path: format!("/etc/xdg/autostart/{command}"),
        name: name.to_string(),
        command: command.to_string(),
        comment: String::new(),
        icon: String::new(),
        enabled: true,
        boot_time_ms: boot,
        critical,
    }
}

#[test]
fn startup_time_filters() {
    assert!(split_time_filter("   ").is_none());
    assert_eq!(split_time_filter(">0.5"), Some((Op::Gt, "0.5".to_string())));
    assert_eq!(split_time_filter(" >= 2s "), Some((Op::Ge, "2".to_string())));
    assert_eq!(split_time_filter("<=1.5 ss"), Some((Op::Le, "1.5".to_string())));
    assert_eq!(split_time_filter("<3"), Some((Op::Lt, "3".to_string())));
    assert_eq!(split_time_filter("=1"), Some((Op::Near, "1".to_string())));
    assert_eq!(split_time_filter("firefox"), Some((Op::Ge, "firefox".to_string())));
}

#[test]
fn startup_partition_by_text_or_time() {
    let es = vec![
        entry("Dbus", "dbus.service", Some(10), true),
        entry("Syncer", "/usr/bin/syncer", None, false),
        entry("cups", "cups.service", Some(900), false),
    ];
    let mut page = rproc::ui::startup::State::new(es, Instant::now());
    assert_eq!(page.partition(&None), (vec![0], vec![1, 2]));
    page.filter = "  SYNC ".to_string();
    assert_eq!(page.partition(&None), (vec![], vec![1]));
    page.filter = "service".to_string();
    assert_eq!(page.partition(&None), (vec![0], vec![2]));
    page.filter = ">0.5".to_string();
    assert_eq!(page.partition(&Some(vec![false, false, true])), (vec![], vec![2]));
}

#[test]
fn startup_record_toggle() {
    let es = vec![entry("a", "a.service", None, false), entry("b", "b.service", None, false)];
    let mut page = rproc::ui::startup::State::new(es, Instant::now());
    page.record_toggle(1, false, &Ok(()));
    assert!(!page.entries[1].enabled);
    assert!(page.entries[0].enabled);
    assert_eq!(page.last_error, None);
    page.record_toggle(0, false, &Err("busy".to_string()));
    assert!(page.entries[0].enabled);
    assert_eq!(page.last_error, Some("Failed to toggle a: busy".to_string()));
    let fresh = vec![entry("c", "c.service", None, false)];
    page.reload(fresh, Instant::now());
    assert_eq!(page.entries.len(), 1);
    assert_eq!(page.last_error, None);
}

#[test]
fn startup_row_texts() {
    assert_eq!(display_name(&entry("Named", "x.desktop", None, false)), "Named");
    assert_eq!(display_name(&entry("", "x.desktop", None, false)), "x.desktop");
    assert_eq!(toggle_label(true, true), "Protected");
    assert_eq!(toggle_label(false, true), "Enabled");
    assert_eq!(toggle_label(false, false), "Disabled");
    assert_eq!(scope_badge(StartupSource::UserAutostart), "user · autostart");
    assert_eq!(scope_badge(StartupSource::SystemAutostart), "system · autostart");
    assert_eq!(scope_badge(StartupSource::SystemdSystem), "system · systemd");
    assert_eq!(scope_badge(StartupSource::SystemdUser), "user · systemd");
}

fn boot(ms: Option<u64>) -> String {
    match format_boot_time(ms) {
        BootTime::Text(t) => t,
        BootTime::Seconds(m) => format!("{} seconds", m),
    }
}

#[test]
fn startup_boot_times() {
    assert_eq!(boot(None), "—");
    assert_eq!(boot(Some(0)), "<1 ms");
    assert_eq!(boot(Some(999)), "999 ms");
    assert_eq!(boot(Some(1000)), "1000 seconds");
    assert_eq!(boot(Some(59999)), "59999 seconds");
    assert_eq!(boot(Some(60000)), "1m 0s");
    assert_eq!(boot(Some(3_725_999)), "62m 5s");
}
