use rproc::services::{
    command_outcome, control_args, list, list_units_args, parse_service_units, ServiceScope,
};

const SYSTEM: &str = "cups.service loaded active running CUPS Scheduler\n\
ssh.service loaded inactive dead OpenBSD Secure Shell server\n\
\n\
avahi.service   loaded   failed   failed   Avahi   mDNS/DNS-SD\n";

const USER: &str = "pipewire.service loaded active running PipeWire Multimedia Service\n\
cups.service loaded active running Per-user\n";

#[test]
fn parse_service_units_reads_columns() {
    let v = parse_service_units(SYSTEM, ServiceScope::System);
    assert_eq!(v.len(), 3);
    assert_eq!(v[0].name, "cups.service");
    assert_eq!(v[0].load, "loaded");
    assert_eq!(v[0].active, "active");
    assert_eq!(v[0].sub, "running");
    assert_eq!(v[0].description, "CUPS Scheduler");
    assert_eq!(v[2].name, "avahi.service");
    assert_eq!(v[2].description, "Avahi mDNS/DNS-SD");
    assert_eq!(v[2].scope, ServiceScope::System);
}

#[test]
fn parse_service_units_short_lines_leave_fields_empty() {
    let v = parse_service_units("lonely.service loaded\n", ServiceScope::User);
    assert_eq!(v.len(), 1);
    assert_eq!(v[0].active, "");
    assert_eq!(v[0].sub, "");
    assert_eq!(v[0].description, "");
    assert_eq!(v[0].scope, ServiceScope::User);
}

#[test]
fn list_sorts_by_name_keeping_system_first_on_ties() {
    let v = list(SYSTEM, USER);
    let names: Vec<(String, ServiceScope)> = v.iter().map(|s| (s.name.clone(), s.scope)).collect();
    assert_eq!(
        names,
        vec![
            ("avahi.service".to_string(), ServiceScope::System),
            ("cups.service".to_string(), ServiceScope::System),
            ("cups.service".to_string(), ServiceScope::User),
            ("pipewire.service".to_string(), ServiceScope::User),
            ("ssh.service".to_string(), ServiceScope::System),
        ]
    );
}

#[test]
fn list_of_nothing_is_empty() {
    assert!(list("", "").is_empty());
}

#[test]
fn systemctl_arguments() {
    assert_eq!(
        list_units_args(ServiceScope::User),
        vec!["--user", "list-units", "--type=service", "--all", "--no-legend", "--plain", "--no-pager"]
    );
    assert_eq!(list_units_args(ServiceScope::System)[0], "list-units");
    assert_eq!(control_args("cups.service", "restart", ServiceScope::System), vec!["restart", "cups.service"]);
    assert_eq!(
        control_args("pipewire.service", "stop", ServiceScope::User),
        vec!["--user", "stop", "pipewire.service"]
    );
}

#[test]
fn command_outcome_reports_trimmed_stderr() {
    assert_eq!(command_outcome(true, "ignored"), Ok(()));
    assert_eq!(
        command_outcome(false, "  Failed to stop x.service: Access denied\n"),
        Err("Failed to stop x.service: Access denied".to_string())
    );
}
